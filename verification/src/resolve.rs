//! The formulae that a set of roots needs: the roots themselves and,
//! through their dependencies, everything below them.

use vstd::prelude::*;
use crate::closure::queued;
use crate::error::{Error, Failure};
use crate::formulae::{lemma_position_in_range, position, Formula, FormulaIndex};
use crate::graph::{lemma_live_total_kill, live_total};

verus! {

/// Some root stands for the formula at `p`.
pub open spec fn is_root_position(index: Seq<Formula>, roots: Seq<&str>, p: int) -> bool {
    exists|i: int| 0 <= i < roots.len() && position(index, (#[trigger] roots[i])@) == Some(p)
}

/// The `k`th dependency of the formula at `p` stands for the formula at
/// `q`.
pub open spec fn names_dependency(index: Seq<Formula>, p: int, k: int, q: int) -> bool {
    &&& 0 <= p < index.len()
    &&& 0 <= k < index[p].dependencies@.len()
    &&& position(index, index[p].dependencies@[k]@) == Some(q)
}

/// The formula at `p` depends on the formula at `q`.
pub open spec fn depends_on(index: Seq<Formula>, p: int, q: int) -> bool {
    exists|k: int| names_dependency(index, p, k, q)
}

/// `path` leads from a root along dependencies.
pub open spec fn is_path(index: Seq<Formula>, roots: Seq<&str>, path: Seq<int>) -> bool {
    &&& path.len() > 0
    &&& is_root_position(index, roots, path[0])
    &&& forall|t: int| 0 <= t < path.len() - 1 ==> depends_on(index, #[trigger] path[t], path[t + 1])
}

/// The formula at `p` is needed: a path leads to it from some root.
pub open spec fn needed(index: Seq<Formula>, roots: Seq<&str>, p: int) -> bool {
    exists|path: Seq<int>| is_path(index, roots, path) && #[trigger] path.last() == p
}

/// The formula at `p` has `name` among its dependencies.
pub open spec fn lists_dependency(index: Seq<Formula>, p: int, name: Seq<char>) -> bool {
    exists|k: int| 0 <= k < index[p].dependencies@.len() && #[trigger] index[p].dependencies@[k]@ == name
}

/// `name` is asked for, as a root or as a dependency of a needed formula,
/// and stands for no formula.
pub open spec fn dangling(index: Seq<Formula>, roots: Seq<&str>, name: Seq<char>) -> bool {
    &&& position(index, name) is None
    &&& (exists|i: int| 0 <= i < roots.len() && (#[trigger] roots[i])@ == name) || exists|p: int|
        0 <= p < index.len() && needed(index, roots, p) && #[trigger] lists_dependency(
            index,
            p,
            name,
        )
}

/// The needed formulae among the leading `n`, in the order of the index.
pub open spec fn needed_formulae(index: Seq<Formula>, roots: Seq<&str>, n: nat) -> Seq<Formula>
    decreases n,
{
    if n == 0 {
        Seq::empty()
    } else if needed(index, roots, n - 1) {
        needed_formulae(index, roots, (n - 1) as nat).push(index[n - 1])
    } else {
        needed_formulae(index, roots, (n - 1) as nat)
    }
}

proof fn lemma_path_goes_on(index: Seq<Formula>, roots: Seq<&str>, p: int, k: int, q: int)
    requires
        needed(index, roots, p),
        names_dependency(index, p, k, q),
    ensures
        needed(index, roots, q),
{
    let path = choose|path: Seq<int>| is_path(index, roots, path) && #[trigger] path.last() == p;
    let longer = path.push(q);
    assert forall|t: int| 0 <= t < longer.len() - 1 implies depends_on(
        index,
        #[trigger] longer[t],
        longer[t + 1],
    ) by {
        if t < path.len() - 1 {
            assert(depends_on(index, path[t], path[t + 1]));
        } else {
            assert(longer[t] == p && longer[t + 1] == q);
        }
    }
    assert(is_path(index, roots, longer) && longer.last() == q);
}

proof fn lemma_root_is_needed(index: Seq<Formula>, roots: Seq<&str>, i: int, p: int)
    requires
        0 <= i < roots.len(),
        position(index, roots[i]@) == Some(p),
    ensures
        needed(index, roots, p),
{
    let path = seq![p];
    assert(is_root_position(index, roots, path[0]));
    assert(is_path(index, roots, path) && path.last() == p);
}

/// Each formula that was seen has each of its dependencies seen as well.
pub open spec fn seen_is_closed(index: Seq<Formula>, unseen: Seq<bool>) -> bool {
    forall|p: int, k: int, q: int|
        0 <= p < index.len() && !unseen[p] && #[trigger] names_dependency(index, p, k, q)
            ==> !unseen[q]
}

/// Once all roots are seen and what is seen is closed, every formula along
/// a path is seen.
proof fn lemma_path_is_seen(
    index: Seq<Formula>,
    roots: Seq<&str>,
    unseen: Seq<bool>,
    path: Seq<int>,
    t: int,
)
    requires
        is_path(index, roots, path),
        0 <= t < path.len(),
        unseen.len() == index.len(),
        forall|i: int|
            0 <= i < roots.len() ==> (position(index, (#[trigger] roots[i])@) matches Some(p)
                && !unseen[p]),
        seen_is_closed(index, unseen),
    ensures
        0 <= path[t] < index.len(),
        !unseen[path[t]],
    decreases t,
{
    if t == 0 {
        let i = choose|i: int|
            0 <= i < roots.len() && position(index, (#[trigger] roots[i])@) == Some(path[0]);
        lemma_position_in_range(index, roots[i]@);
    } else {
        lemma_path_is_seen(index, roots, unseen, path, t - 1);
        let p = path[t - 1];
        let q = path[t];
        assert(depends_on(index, path[t - 1], path[t - 1 + 1]));
        let k = choose|k: int| names_dependency(index, p, k, q);
        lemma_position_in_range(index, index[p].dependencies@[k]@);
    }
}

impl Formula {
    /// The formulae that `roots` need: those that the roots stand for, by
    /// name or alias, and those that they depend on, directly or through
    /// others. The formulae come in the order of the index, each once.
    ///
    /// Fails with `UnknownFormula` when a root, or a dependency of a needed
    /// formula, stands for none; the error names such a text.
    pub fn resolve_dependencies<'a>(index: &'a FormulaIndex, roots: Vec<&str>) -> (resolved: Result<
        Vec<&'a Formula>,
        Error,
    >)
        requires
            index.wf(),
        ensures
            match resolved {
                Ok(found) => {
                    &&& forall|name: Seq<char>| !dangling(index@, roots@, name)
                    &&& found@.len() == needed_formulae(index@, roots@, index@.len()).len()
                    &&& forall|i: int|
                        0 <= i < found@.len() ==> *(#[trigger] found@[i]) == needed_formulae(
                            index@,
                            roots@,
                            index@.len(),
                        )[i]
                },
                Err(e) => exists|name: Seq<char>|
                    dangling(index@, roots@, name) && e@ == Failure::UnknownFormula(name),
            },
    {
        let n = index.len();
        let mut unseen: Vec<bool> = vec![true; n];
        let mut stack: Vec<usize> = Vec::new();
        let mut i: usize = 0;
        while i < roots.len()
            invariant
                i <= roots@.len(),
                index.wf(),
                n == index@.len(),
                forall|k: int|
                    0 <= k < stack@.len() ==> (#[trigger] stack@[k]) < n && needed(
                        index@,
                        roots@,
                        stack@[k] as int,
                    ),
                forall|j: int|
                    0 <= j < i ==> (position(index@, (#[trigger] roots@[j])@) matches Some(p)
                        && queued(stack@, p)),
            decreases roots@.len() - i,
        {
            let ghost waiting = stack@;
            match index.position(roots[i]) {
                Some(p) => {
                    proof {
                        lemma_root_is_needed(index@, roots@, i as int, p as int);
                    }
                    stack.push(p);
                    proof {
                        assert(stack@[waiting.len() as int] == p);
                        assert forall|j: int| 0 <= j < i + 1 implies (position(
                            index@,
                            (#[trigger] roots@[j])@,
                        ) matches Some(at) && queued(stack@, at)) by {
                            if j < i {
                                let at = position(index@, roots@[j]@)->0;
                                let k = choose|k: int|
                                    0 <= k < waiting.len() && #[trigger] waiting[k] == at;
                                assert(stack@[k] == at);
                            }
                        }
                    }
                },
                None => {
                    assert(dangling(index@, roots@, roots@[i as int]@));
                    return Err(Error::UnknownFormula(roots[i].to_owned()));
                },
            }
            i += 1;
        }
        while stack.len() > 0
            invariant
                index.wf(),
                n == index@.len(),
                unseen@.len() == n,
                forall|k: int|
                    0 <= k < stack@.len() ==> (#[trigger] stack@[k]) < n && needed(
                        index@,
                        roots@,
                        stack@[k] as int,
                    ),
                forall|p: int| 0 <= p < n && !(#[trigger] unseen@[p]) ==> needed(index@, roots@, p),
                forall|j: int|
                    0 <= j < roots@.len() ==> (position(index@, (#[trigger] roots@[j])@) matches Some(
                        p,
                    ) && (!unseen@[p] || queued(stack@, p))),
                forall|p: int, k: int, q: int|
                    0 <= p < n && !unseen@[p] && #[trigger] names_dependency(index@, p, k, q)
                        ==> !unseen@[q] || queued(stack@, q),
                forall|p: int, name: Seq<char>|
                    0 <= p < n && !unseen@[p] && #[trigger] lists_dependency(index@, p, name)
                        ==> position(index@, name) is Some,
            decreases live_total(unseen@, n as nat), stack@.len(),
        {
            let ghost full = stack@;
            let ghost total = live_total(unseen@, n as nat);
            let p = stack.pop().unwrap();
            let ghost popped = stack@;
            proof {
                assert(full[full.len() - 1] == p);
                assert forall|x: int| queued(full, x) implies queued(popped, x) || x == p by {
                    let at = choose|at: int| 0 <= at < full.len() && #[trigger] full[at] == x;
                    if at < full.len() - 1 {
                        assert(popped[at] == x);
                    }
                }
                assert forall|k: int| 0 <= k < popped.len() implies (#[trigger] popped[k]) < n
                    && needed(index@, roots@, popped[k] as int) by {
                    assert(popped[k] == full[k]);
                }
            }
            if unseen[p] {
                proof {
                    lemma_live_total_kill(unseen@, p as int, n as nat);
                }
                let ghost unseen_before = unseen@;
                unseen[p] = false;
                proof {
                    assert forall|j: int| 0 <= j < roots@.len() implies (position(
                        index@,
                        (#[trigger] roots@[j])@,
                    ) matches Some(x) && (!unseen@[x] || queued(stack@, x))) by {
                        let x = position(index@, roots@[j]@)->0;
                        lemma_position_in_range(index@, roots@[j]@);
                        if unseen_before[x] {
                            assert(queued(full, x));
                        }
                    }
                    assert forall|x: int, d: int, q: int|
                        0 <= x < n && !unseen@[x] && #[trigger] names_dependency(index@, x, d, q)
                            && (x != p || d < 0) implies !unseen@[q] || queued(stack@, q) by {
                        lemma_position_in_range(index@, index@[x].dependencies@[d]@);
                        assert(!unseen_before[x]);
                        if unseen_before[q] {
                            assert(queued(full, q));
                        }
                    }
                }
                let formula = index.at(p);
                let mut k: usize = 0;
                while k < formula.dependencies.len()
                    invariant
                        k <= formula.dependencies@.len(),
                        index.wf(),
                        n == index@.len(),
                        p < n,
                        *formula == index@[p as int],
                        unseen@.len() == n,
                        !unseen@[p as int],
                        live_total(unseen@, n as nat) < total,
                        forall|at: int|
                            0 <= at < stack@.len() ==> (#[trigger] stack@[at]) < n && needed(
                                index@,
                                roots@,
                                stack@[at] as int,
                            ),
                        forall|x: int|
                            0 <= x < n && !(#[trigger] unseen@[x]) ==> needed(index@, roots@, x),
                        forall|j: int|
                            0 <= j < roots@.len() ==> (position(
                                index@,
                                (#[trigger] roots@[j])@,
                            ) matches Some(x) && (!unseen@[x] || queued(stack@, x))),
                        forall|x: int, d: int, q: int|
                            0 <= x < n && !unseen@[x] && #[trigger] names_dependency(
                                index@,
                                x,
                                d,
                                q,
                            ) && (x != p || d < k) ==> !unseen@[q] || queued(stack@, q),
                        forall|x: int, name: Seq<char>|
                            0 <= x < n && !unseen@[x] && x != p && #[trigger] lists_dependency(
                                index@,
                                x,
                                name,
                            ) ==> position(index@, name) is Some,
                        forall|d: int|
                            0 <= d < k ==> position(
                                index@,
                                #[trigger] index@[p as int].dependencies@[d]@,
                            ) is Some,
                    decreases formula.dependencies@.len() - k,
                {
                    let ghost waiting = stack@;
                    let dependency = formula.dependencies[k].as_str();
                    match index.position(dependency) {
                        Some(q) => {
                            proof {
                                assert(names_dependency(index@, p as int, k as int, q as int));
                                lemma_path_goes_on(index@, roots@, p as int, k as int, q as int);
                            }
                            if unseen[q] {
                                stack.push(q);
                                proof {
                                    assert(stack@[waiting.len() as int] == q);
                                    assert forall|x: int| queued(waiting, x) implies queued(
                                        stack@,
                                        x,
                                    ) by {
                                        let at = choose|at: int|
                                            0 <= at < waiting.len() && #[trigger] waiting[at] == x;
                                        assert(stack@[at] == x);
                                    }
                                    assert forall|at: int| 0 <= at < stack@.len() implies (
                                    #[trigger] stack@[at]) < n && needed(
                                        index@,
                                        roots@,
                                        stack@[at] as int,
                                    ) by {
                                        if at < waiting.len() {
                                            assert(stack@[at] == waiting[at]);
                                        }
                                    }
                                }
                            }
                        },
                        None => {
                            proof {
                                let name = index@[p as int].dependencies@[k as int]@;
                                assert(lists_dependency(index@, p as int, name));
                                assert(dangling(index@, roots@, name));
                            }
                            return Err(Error::UnknownFormula(dependency.to_owned()));
                        },
                    }
                    k += 1;
                }
                proof {
                    assert forall|x: int, name: Seq<char>|
                        0 <= x < n && !unseen@[x] && #[trigger] lists_dependency(
                            index@,
                            x,
                            name,
                        ) implies position(index@, name) is Some by {
                        if x == p {
                            let d = choose|d: int|
                                0 <= d < index@[x].dependencies@.len()
                                    && #[trigger] index@[x].dependencies@[d]@ == name;
                        }
                    }
                }
            }
        }
        let mut found: Vec<&'a Formula> = Vec::new();
        let mut p: usize = 0;
        proof {
            assert(stack@.len() == 0);
            assert(seen_is_closed(index@, unseen@)) by {
                assert forall|x: int, k: int, q: int|
                    0 <= x < index@.len() && !unseen@[x] && #[trigger] names_dependency(
                        index@,
                        x,
                        k,
                        q,
                    ) implies !unseen@[q] by {
                    assert(!queued(stack@, q));
                }
            }
            assert forall|x: int| 0 <= x < n implies (needed(index@, roots@, x) <==> !unseen@[x]) by {
                if needed(index@, roots@, x) {
                    let path = choose|path: Seq<int>|
                        is_path(index@, roots@, path) && #[trigger] path.last() == x;
                    assert forall|j: int| 0 <= j < roots@.len() implies (position(
                        index@,
                        (#[trigger] roots@[j])@,
                    ) matches Some(at) && !unseen@[at]) by {
                        let at = position(index@, roots@[j]@)->0;
                        assert(!queued(stack@, at));
                    }
                    lemma_path_is_seen(index@, roots@, unseen@, path, path.len() - 1);
                }
            }
            assert forall|name: Seq<char>| !dangling(index@, roots@, name) by {
                if dangling(index@, roots@, name) {
                    if exists|i: int| 0 <= i < roots@.len() && (#[trigger] roots@[i])@ == name {
                        let i = choose|i: int| 0 <= i < roots@.len() && (#[trigger] roots@[i])@ == name;
                    } else {
                        let x = choose|x: int|
                            0 <= x < index@.len() && needed(index@, roots@, x)
                                && #[trigger] lists_dependency(index@, x, name);
                        assert(!unseen@[x]);
                    }
                }
            }
        }
        while p < n
            invariant
                p <= n,
                n == index@.len(),
                unseen@.len() == n,
                forall|x: int| 0 <= x < n ==> (needed(index@, roots@, x) <==> !unseen@[x]),
                found@.len() == needed_formulae(index@, roots@, p as nat).len(),
                forall|i: int|
                    0 <= i < found@.len() ==> *(#[trigger] found@[i]) == needed_formulae(
                        index@,
                        roots@,
                        p as nat,
                    )[i],
            decreases n - p,
        {
            if !unseen[p] {
                found.push(index.at(p));
            }
            p += 1;
        }
        Ok(found)
    }
}

} // verus!
