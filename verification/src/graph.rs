//! Pruning of a graph to the nodes that something still holds on to.
//!
//! Nodes are numbered from zero. A link has a target and may have a source;
//! a link without a source holds its target unconditionally.

use vstd::prelude::*;

verus! {

/// A link of the graph: its source, if it has one, and its target.
pub struct Link {
    pub source: Option<usize>,
    pub target: usize,
}

/// Every link stays among the first `n` nodes.
pub open spec fn links_within(links: Seq<Link>, n: int) -> bool {
    forall|j: int|
        0 <= j < links.len() ==> (#[trigger] links[j]).target < n && (links[j].source matches Some(
            s,
        ) ==> s < n)
}

/// Link `j` holds its target as long as the nodes of `group` are there.
pub open spec fn holding(links: Seq<Link>, group: Set<int>, j: int) -> bool {
    links[j].source matches Some(s) ==> group.contains(s as int)
}

/// Some link holds `node`, coming from nowhere or from a node of `group`.
pub open spec fn held(links: Seq<Link>, group: Set<int>, node: int) -> bool {
    exists|j: int|
        0 <= j < links.len() && (#[trigger] links[j]).target == node && holding(links, group, j)
}

/// Each node of `group` is held from nowhere or from within the group.
pub open spec fn holds_itself(links: Seq<Link>, group: Set<int>) -> bool {
    forall|node: int| group.contains(node) ==> held(links, group, node)
}

/// `node` belongs to some group that holds itself, so that it outlasts the
/// removal of every node that nothing holds.
pub open spec fn lasting(links: Seq<Link>, node: int) -> bool {
    exists|group: Set<int>| holds_itself(links, group) && group.contains(node)
}

/// How many of the first `m` links are live and point at `node`.
pub open spec fn live_into(links: Seq<Link>, live: Seq<bool>, node: int, m: nat) -> nat
    decreases m,
{
    if m == 0 {
        0
    } else {
        live_into(links, live, node, (m - 1) as nat) + if live[m - 1] && links[m - 1].target
            == node {
            1nat
        } else {
            0nat
        }
    }
}

/// How many of the first `m` links are live.
pub open spec fn live_total(live: Seq<bool>, m: nat) -> nat
    decreases m,
{
    if m == 0 {
        0
    } else {
        live_total(live, (m - 1) as nat) + if live[m - 1] {
            1nat
        } else {
            0nat
        }
    }
}

proof fn lemma_live_into_bound(links: Seq<Link>, live: Seq<bool>, node: int, m: nat)
    ensures
        live_into(links, live, node, m) <= m,
    decreases m,
{
    if m > 0 {
        lemma_live_into_bound(links, live, node, (m - 1) as nat);
    }
}

proof fn lemma_live_into_none(links: Seq<Link>, live: Seq<bool>, node: int, m: nat)
    requires
        m <= links.len(),
        live.len() == links.len(),
    ensures
        live_into(links, live, node, m) == 0 <==> forall|j: int|
            0 <= j < m ==> !(live[j] && (#[trigger] links[j]).target == node),
    decreases m,
{
    if m > 0 {
        lemma_live_into_none(links, live, node, (m - 1) as nat);
        if live_into(links, live, node, m) != 0 {
            if live[m - 1] && links[m - 1].target == node {
            } else {
                let j = choose|j: int|
                    0 <= j < m - 1 && live[j] && (#[trigger] links[j]).target == node;
                assert(0 <= j < m);
            }
        }
    }
}

proof fn lemma_live_into_kill(links: Seq<Link>, live: Seq<bool>, j: int, node: int, m: nat)
    requires
        0 <= j < live.len(),
        live.len() == links.len(),
        m <= links.len(),
        live[j],
    ensures
        live_into(links, live.update(j, false), node, m) == live_into(links, live, node, m) - (if j
            < m && links[j].target == node {
            1int
        } else {
            0int
        }),
    decreases m,
{
    if m > 0 {
        lemma_live_into_kill(links, live, j, node, (m - 1) as nat);
    }
}

/// Clearing one flag that was set leaves one flag less set.
pub proof fn lemma_live_total_kill(live: Seq<bool>, j: int, m: nat)
    requires
        0 <= j < live.len(),
        m <= live.len(),
        live[j],
    ensures
        live_total(live.update(j, false), m) == live_total(live, m) - (if j < m {
            1int
        } else {
            0int
        }),
    decreases m,
{
    if m > 0 {
        lemma_live_total_kill(live, j, (m - 1) as nat);
    }
}

/// Removes, again and again, every node that no link holds, together with
/// the links that leave it, and says which nodes are left.
///
/// A node is left exactly when it belongs to a group of nodes that holds
/// itself.
pub fn prune(n: usize, links: &Vec<Link>) -> (alive: Vec<bool>)
    requires
        links_within(links@, n as int),
    ensures
        alive@.len() == n,
        forall|i: int| 0 <= i < n ==> (alive@[i] <==> lasting(links@, i)),
{
    let m = links.len();
    let mut counts: Vec<usize> = vec![0usize; n];
    let mut live: Vec<bool> = vec![true; m];
    let mut alive: Vec<bool> = vec![true; n];
    let mut j: usize = 0;
    while j < m
        invariant
            j <= m,
            m == links@.len(),
            links_within(links@, n as int),
            counts@.len() == n,
            live@.len() == m,
            forall|x: int| 0 <= x < m ==> live@[x],
            forall|i: int|
                0 <= i < n ==> #[trigger] counts@[i] == live_into(links@, live@, i, j as nat),
        decreases m - j,
    {
        let target = links[j].target;
        proof {
            lemma_live_into_bound(links@, live@, target as int, j as nat);
        }
        counts[target] = counts[target] + 1;
        j += 1;
    }
    let mut stack: Vec<usize> = Vec::new();
    let mut i: usize = 0;
    while i < n
        invariant
            i <= n,
            counts@.len() == n,
            forall|k: int| 0 <= k < stack@.len() ==> stack@[k] < n && counts@[stack@[k] as int] == 0,
            forall|x: int|
                0 <= x < i && counts@[x] == 0 ==> exists|k: int|
                    0 <= k < stack@.len() && #[trigger] stack@[k] == x,
        decreases n - i,
    {
        if counts[i] == 0 {
            let ghost before = stack@;
            stack.push(i);
            proof {
                assert(stack@[before.len() as int] == i);
                assert forall|x: int| 0 <= x < i + 1 && counts@[x] == 0 implies exists|k: int|
                    0 <= k < stack@.len() && #[trigger] stack@[k] == x by {
                    if x < i {
                        let k = choose|k: int| 0 <= k < before.len() && #[trigger] before[k] == x;
                        assert(stack@[k] == x);
                    }
                }
            }
        }
        i += 1;
    }
    while stack.len() > 0
        invariant
            m == links@.len(),
            links_within(links@, n as int),
            counts@.len() == n,
            alive@.len() == n,
            live@.len() == m,
            forall|x: int|
                0 <= x < n ==> #[trigger] counts@[x] == live_into(links@, live@, x, m as nat),
            forall|x: int|
                0 <= x < m ==> (#[trigger] live@[x] <==> (links@[x].source matches Some(s)
                    ==> alive@[s as int])),
            forall|x: int|
                0 <= x < n && alive@[x] && counts@[x] == 0 ==> exists|k: int|
                    0 <= k < stack@.len() && #[trigger] stack@[k] == x,
            forall|k: int| 0 <= k < stack@.len() ==> stack@[k] < n && counts@[stack@[k] as int] == 0,
            forall|group: Set<int>, x: int|
                holds_itself(links@, group) && #[trigger] group.contains(x) && 0 <= x < n
                    ==> alive@[x],
        decreases live_total(live@, m as nat), stack@.len(),
    {
        let ghost total = live_total(live@, m as nat);
        let ghost alive_before = alive@;
        let ghost stack_full = stack@;
        let node = stack.pop().unwrap();
        let ghost popped = stack@;
        if alive[node] {
            proof {
                assert(node == stack_full[stack_full.len() - 1]);
                lemma_live_into_none(links@, live@, node as int, m as nat);
                assert forall|group: Set<int>, x: int|
                    holds_itself(links@, group) && #[trigger] group.contains(x) && 0 <= x < n implies x
                    != node by {
                    if x == node {
                        assert(held(links@, group, x));
                        let via = choose|via: int|
                            0 <= via < links@.len() && (#[trigger] links@[via]).target == x && holding(
                                links@,
                                group,
                                via,
                            );
                        match links@[via].source {
                            Some(s) => {
                                assert(group.contains(s as int));
                                assert(alive@[s as int]);
                            },
                            None => {},
                        }
                        assert(live@[via]);
                    }
                }
            }
            alive[node] = false;
            proof {
                assert forall|x: int| 0 <= x < n && alive@[x] && counts@[x] == 0 implies exists|k: int|
                    0 <= k < stack@.len() && #[trigger] stack@[k] == x by {
                    assert(alive_before[x]);
                    let k = choose|k: int| 0 <= k < stack_full.len() && #[trigger] stack_full[k] == x;
                    assert(stack@[k] == x);
                }
                assert forall|x: int| 0 <= x < m implies (#[trigger] live@[x] <==> (links@[x].source matches Some(
                    s,
                ) ==> alive@[s as int] || (s == node && x >= 0))) by {
                    match links@[x].source {
                        Some(s) => {
                            assert(alive_before[node as int]);
                            assert(alive_before[s as int] == (alive@[s as int] || s == node));
                        },
                        None => {},
                    }
                }
            }
            let mut j: usize = 0;
            while j < m
                invariant
                    j <= m,
                    node < n,
                    m == links@.len(),
                    links_within(links@, n as int),
                    counts@.len() == n,
                    alive@.len() == n,
                    live@.len() == m,
                    !alive@[node as int],
                    forall|x: int|
                        0 <= x < n ==> #[trigger] counts@[x] == live_into(links@, live@, x, m as nat),
                    forall|x: int|
                        0 <= x < m ==> (#[trigger] live@[x] <==> (links@[x].source matches Some(s)
                            ==> alive@[s as int] || (s == node && x >= j))),
                    forall|x: int|
                        0 <= x < n && alive@[x] && counts@[x] == 0 ==> exists|k: int|
                            0 <= k < stack@.len() && #[trigger] stack@[k] == x,
                    forall|k: int|
                        0 <= k < stack@.len() ==> stack@[k] < n && counts@[stack@[k] as int] == 0,
                    live_total(live@, m as nat) <= total,
                    live_total(live@, m as nat) == total ==> stack@ == popped,
                decreases m - j,
            {
                let from_node = match links[j].source {
                    Some(s) => s == node,
                    None => false,
                };
                if live[j] && from_node {
                    let target = links[j].target;
                    let ghost live_before = live@;
                    let ghost counts_before = counts@;
                    let ghost stack_before = stack@;
                    proof {
                        lemma_live_total_kill(live@, j as int, m as nat);
                        lemma_live_into_none(links@, live@, target as int, m as nat);
                        assert forall|x: int| 0 <= x < n implies live_into(
                            links@,
                            live_before.update(j as int, false),
                            x,
                            m as nat,
                        ) == live_into(links@, live_before, x, m as nat) - (if x == target {
                            1int
                        } else {
                            0int
                        }) by {
                            lemma_live_into_kill(links@, live_before, j as int, x, m as nat);
                        }
                    }
                    live[j] = false;
                    counts[target] = counts[target] - 1;
                    if counts[target] == 0 {
                        stack.push(target);
                        proof {
                            assert(stack@[stack_before.len() as int] == target);
                        }
                    }
                    proof {
                        assert forall|x: int| 0 <= x < n && alive@[x] && counts@[x] == 0 implies exists|
                            k: int,
                        |
                            0 <= k < stack@.len() && #[trigger] stack@[k] == x by {
                            if x == target {
                                assert(stack@[stack_before.len() as int] == x);
                            } else {
                                assert(counts_before[x] == 0);
                                let k = choose|k: int|
                                    0 <= k < stack_before.len() && #[trigger] stack_before[k] == x;
                                assert(stack@[k] == x);
                            }
                        }
                        assert forall|k: int| 0 <= k < stack@.len() implies stack@[k] < n && counts@[stack@[k] as int]
                            == 0 by {
                            if k < stack_before.len() {
                                assert(stack@[k] == stack_before[k]);
                                assert(counts_before[stack_before[k] as int] == 0);
                                if stack_before[k] == target {
                                    lemma_live_into_none(
                                        links@,
                                        live_before,
                                        target as int,
                                        m as nat,
                                    );
                                    assert(false);
                                }
                            }
                        }
                    }
                }
                j += 1;
            }
            proof {
                assert forall|group: Set<int>, x: int|
                    holds_itself(links@, group) && #[trigger] group.contains(x) && 0 <= x
                        < n implies alive@[x] by {
                    assert(alive_before[x]);
                    assert(x != node);
                }
            }
        } else {
            proof {
                assert forall|x: int| 0 <= x < n && alive@[x] && counts@[x] == 0 implies exists|
                    k: int,
                | 0 <= k < stack@.len() && #[trigger] stack@[k] == x by {
                    let k = choose|k: int|
                        0 <= k < stack_full.len() && #[trigger] stack_full[k] == x;
                    assert(stack@[k] == x);
                }
            }
        }
    }
    proof {
        let rest = Set::new(|x: int| 0 <= x < n && alive@[x]);
        assert forall|x: int| rest.contains(x) implies held(links@, rest, x) by {
            lemma_live_into_none(links@, live@, x, m as nat);
            if counts@[x] == 0 {
                let k = choose|k: int| 0 <= k < stack@.len() && #[trigger] stack@[k] == x;
                assert(false);
            }
            let via = choose|via: int|
                0 <= via < m && live@[via] && (#[trigger] links@[via]).target == x;
            assert(holding(links@, rest, via));
        }
        assert(holds_itself(links@, rest));
        assert forall|x: int| 0 <= x < n implies (alive@[x] <==> lasting(links@, x)) by {
            if alive@[x] {
                assert(rest.contains(x));
            }
            if lasting(links@, x) {
                let group = choose|group: Set<int>|
                    holds_itself(links@, group) && group.contains(x);
                assert(group.contains(x));
            }
        }
    }
    alive
}

} // verus!
