//! Bottle references, and sets of them kept as sorted vectors.

use vstd::prelude::*;
use crate::text::{
    compare_str, lemma_str_lt_trans, lemma_str_order_equal, lemma_str_order_flip, same_str,
    str_order, Order,
};

verus! {

/// The identity of a bottle while planning: a package name and a version.
#[derive(Debug, PartialEq, Eq, PartialOrd, Ord)]
pub struct BottleRef {
    pub name: String,
    pub version: String,
}

/// What a `BottleRef` stands for in specifications.
#[verifier::ext_equal]
pub struct BottleId {
    pub name: Seq<char>,
    pub version: Seq<char>,
}

impl View for BottleRef {
    type V = BottleId;

    open spec fn view(&self) -> BottleId {
        BottleId { name: self.name@, version: self.version@ }
    }
}

impl Clone for BottleRef {
    fn clone(&self) -> (copy: Self)
        ensures
            copy@ == self@,
    {
        BottleRef { name: self.name.clone(), version: self.version.clone() }
    }
}

/// Comparison of two bottle identities: by name, then by version.
pub open spec fn id_order(a: BottleId, b: BottleId) -> Order {
    match str_order(a.name, b.name) {
        Order::Equal => str_order(a.version, b.version),
        other => other,
    }
}

/// `a` sorts strictly before `b`.
pub open spec fn id_lt(a: BottleId, b: BottleId) -> bool {
    id_order(a, b) == Order::Less
}

/// Two identities compare equal exactly when they are the same.
pub proof fn lemma_id_order_equal(a: BottleId, b: BottleId)
    ensures
        id_order(a, b) == Order::Equal <==> a == b,
{
    lemma_str_order_equal(a.name, b.name);
    lemma_str_order_equal(a.version, b.version);
}

/// Comparing the other way round turns the outcome round.
pub proof fn lemma_id_order_flip(a: BottleId, b: BottleId)
    ensures
        id_order(a, b) == Order::Less <==> id_order(b, a) == Order::Greater,
        id_order(a, b) == Order::Equal <==> id_order(b, a) == Order::Equal,
{
    lemma_str_order_flip(a.name, b.name);
    lemma_str_order_flip(a.version, b.version);
}

/// What sorts before something that sorts before a third sorts before the
/// third.
pub proof fn lemma_id_lt_trans(a: BottleId, b: BottleId, c: BottleId)
    requires
        id_lt(a, b),
        id_lt(b, c),
    ensures
        id_lt(a, c),
{
    lemma_str_order_equal(a.name, b.name);
    lemma_str_order_equal(b.name, c.name);
    lemma_str_order_equal(a.name, c.name);
    lemma_str_order_flip(a.name, b.name);
    lemma_str_order_flip(b.name, c.name);
    lemma_str_order_flip(a.name, c.name);
    if str_order(a.name, b.name) == Order::Less && str_order(b.name, c.name) == Order::Less {
        lemma_str_lt_trans(a.name, b.name, c.name);
    } else if str_order(a.name, b.name) == Order::Equal && str_order(b.name, c.name)
        == Order::Equal {
        lemma_str_lt_trans(a.version, b.version, c.version);
    }
}

/// Compares two bottle references by name, then by version.
pub fn compare_refs(a: &BottleRef, b: &BottleRef) -> (order: Order)
    ensures
        order == id_order(a@, b@),
        order == Order::Equal <==> a@ == b@,
{
    proof {
        lemma_id_order_equal(a@, b@);
    }
    match compare_str(a.name.as_str(), b.name.as_str()) {
        Order::Equal => compare_str(a.version.as_str(), b.version.as_str()),
        other => other,
    }
}


/// The references increase strictly from each to the next.
pub open spec fn sorted_refs(refs: Seq<BottleRef>) -> bool {
    forall|i: int, j: int| 0 <= i < j < refs.len() ==> id_lt(#[trigger] refs[i]@, #[trigger] refs[j]@)
}

/// The set of identities that a list of references holds.
pub open spec fn ids(refs: Seq<BottleRef>) -> Set<BottleId> {
    Set::new(|id: BottleId| exists|i: int| 0 <= i < refs.len() && (#[trigger] refs[i])@ == id)
}

/// Some bottle of the set goes by `name`.
pub open spec fn has_name(bottles: Set<BottleId>, name: Seq<char>) -> bool {
    exists|id: BottleId| bottles.contains(id) && id.name == name
}

/// `id` has the lowest version among the bottles of its name.
pub open spec fn is_lowest_version(bottles: Set<BottleId>, id: BottleId) -> bool {
    bottles.contains(id) && forall|other: BottleId|
        bottles.contains(other) && other.name == id.name ==> str_order(id.version, other.version)
            != Order::Greater
}

/// The bottle of the lowest version among those called `name`.
pub open spec fn lowest_version(bottles: Set<BottleId>, name: Seq<char>) -> BottleId {
    choose|id: BottleId| id.name == name && is_lowest_version(bottles, id)
}

/// The bottles of the set that are not called `name`.
pub open spec fn without_name(bottles: Set<BottleId>, name: Seq<char>) -> Set<BottleId> {
    Set::new(|id: BottleId| bottles.contains(id) && id.name != name)
}

/// There is only one bottle of the lowest version under a name.
pub proof fn lemma_lowest_version_unique(bottles: Set<BottleId>, id: BottleId)
    requires
        is_lowest_version(bottles, id),
    ensures
        lowest_version(bottles, id.name) == id,
{
    let chosen = lowest_version(bottles, id.name);
    lemma_str_order_flip(id.version, chosen.version);
    lemma_str_order_equal(id.version, chosen.version);
}

/// An empty list holds no identity.
pub proof fn lemma_ids_of_empty(refs: Seq<BottleRef>)
    requires
        refs.len() == 0,
    ensures
        ids(refs) == Set::<BottleId>::empty(),
{
    assert(ids(refs) =~= Set::<BottleId>::empty());
}

/// In a sorted list no two references stand for the same bottle.
pub proof fn lemma_sorted_refs_distinct(refs: Seq<BottleRef>, a: int, b: int)
    requires
        sorted_refs(refs),
        0 <= a < refs.len(),
        0 <= b < refs.len(),
        refs[a]@ == refs[b]@,
    ensures
        a == b,
{
    lemma_id_order_equal(refs[a]@, refs[b]@);
    if a < b {
        assert(id_lt(refs[a]@, refs[b]@));
    } else if b < a {
        assert(id_lt(refs[b]@, refs[a]@));
        lemma_id_order_flip(refs[b]@, refs[a]@);
    }
}

/// The first position at which `key` could stand in the sorted list.
pub fn lower_bound(refs: &Vec<BottleRef>, key: &BottleRef) -> (at: usize)
    requires
        sorted_refs(refs@),
    ensures
        at <= refs@.len(),
        forall|j: int| 0 <= j < at ==> id_lt(#[trigger] refs@[j]@, key@),
        forall|j: int| at <= j < refs@.len() ==> !id_lt(#[trigger] refs@[j]@, key@),
{
    let mut lo: usize = 0;
    let mut hi: usize = refs.len();
    while lo < hi
        invariant
            lo <= hi <= refs@.len(),
            sorted_refs(refs@),
            forall|j: int| 0 <= j < lo ==> id_lt(#[trigger] refs@[j]@, key@),
            forall|j: int| hi <= j < refs@.len() ==> !id_lt(#[trigger] refs@[j]@, key@),
        decreases hi - lo,
    {
        let mid = lo + (hi - lo) / 2;
        if compare_refs(&refs[mid], key) == Order::Less {
            proof {
                assert forall|j: int| 0 <= j < mid + 1 implies id_lt(#[trigger] refs@[j]@, key@) by {
                    if j < mid {
                        lemma_id_lt_trans(refs@[j]@, refs@[mid as int]@, key@);
                    }
                }
            }
            lo = mid + 1;
        } else {
            proof {
                assert forall|j: int| mid <= j < refs@.len() implies !id_lt(
                    #[trigger] refs@[j]@,
                    key@,
                ) by {
                    if mid < j && id_lt(refs@[j]@, key@) {
                        lemma_id_lt_trans(refs@[mid as int]@, refs@[j]@, key@);
                    }
                }
            }
            hi = mid;
        }
    }
    lo
}

/// The position of `key` in the sorted list.
pub fn index_of(refs: &Vec<BottleRef>, key: &BottleRef) -> (found: Option<usize>)
    requires
        sorted_refs(refs@),
    ensures
        match found {
            Some(i) => i < refs@.len() && refs@[i as int]@ == key@,
            None => !ids(refs@).contains(key@),
        },
{
    let at = lower_bound(refs, key);
    if at < refs.len() && compare_refs(&refs[at], key) == Order::Equal {
        return Some(at);
    }
    proof {
        assert forall|j: int| 0 <= j < refs@.len() implies refs@[j]@ != key@ by {
            lemma_id_order_equal(refs@[j]@, key@);
            if j > at {
                lemma_id_order_flip(refs@[at as int]@, key@);
                lemma_id_order_flip(refs@[j]@, key@);
                lemma_id_order_equal(refs@[at as int]@, key@);
                if refs@[j]@ == key@ {
                    assert(id_lt(refs@[at as int]@, refs@[j]@));
                }
            }
        }
    }
    None
}

/// Adds `item` to the sorted list unless it is there already, and says
/// whether it was added.
pub fn insert_ref(refs: &mut Vec<BottleRef>, item: BottleRef) -> (added: bool)
    requires
        sorted_refs(old(refs)@),
    ensures
        sorted_refs(final(refs)@),
        ids(final(refs)@) == ids(old(refs)@).insert(item@),
        added == !ids(old(refs)@).contains(item@),
{
    let at = lower_bound(refs, &item);
    if at < refs.len() && compare_refs(&refs[at], &item) == Order::Equal {
        assert(ids(refs@).insert(item@) =~= ids(refs@));
        return false;
    }
    let ghost before = refs@;
    let ghost id = item@;
    proof {
        assert forall|j: int| 0 <= j < before.len() implies before[j]@ != id by {
            lemma_id_order_equal(before[j]@, id);
            if j > at {
                lemma_id_order_flip(before[at as int]@, id);
                lemma_id_order_equal(before[at as int]@, id);
                if before[j]@ == id {
                    assert(id_lt(before[at as int]@, before[j]@));
                }
            }
        }
        assert forall|j: int| at <= j < before.len() implies id_lt(id, #[trigger] before[j]@) by {
            lemma_id_order_flip(before[j]@, id);
            lemma_id_order_flip(id, before[j]@);
            lemma_id_order_equal(before[j]@, id);
        }
    }
    refs.insert(at, item);
    proof {
        let after = refs@;
        assert(after.len() == before.len() + 1);
        assert(forall|j: int| 0 <= j < at ==> after[j] == before[j]);
        assert(after[at as int]@ == id);
        assert(forall|j: int| at < j < after.len() ==> after[j] == before[j - 1]);
        assert forall|k: BottleId| ids(after).contains(k) == ids(before).insert(id).contains(
            k,
        ) by {
            if ids(after).contains(k) {
                let i = choose|i: int| 0 <= i < after.len() && (#[trigger] after[i])@ == k;
                if i < at {
                    assert(before[i]@ == k);
                } else if i > at {
                    assert(before[i - 1]@ == k);
                }
            }
            if ids(before).contains(k) {
                let i = choose|i: int| 0 <= i < before.len() && (#[trigger] before[i])@ == k;
                if i < at {
                    assert(after[i]@ == k);
                } else {
                    assert(after[i + 1]@ == k);
                }
            }
            if k == id {
                assert(after[at as int]@ == k);
            }
        }
        assert(ids(after) =~= ids(before).insert(id));
    }
    true
}

/// No version sorts before the empty one.
proof fn lemma_empty_version_is_least(name: Seq<char>, other: BottleId)
    ensures
        other.name == name ==> !id_lt(other, BottleId { name, version: Seq::empty() }),
{
    let least = BottleId { name, version: Seq::<char>::empty() };
    lemma_str_order_equal(other.name, name);
    lemma_str_order_flip(other.version, least.version);
    assert(vstd::utf8::encode_utf8(least.version) =~= Seq::<u8>::empty());
}

/// The position of the first bottle called `name`, which is the one of the
/// lowest version, found by binary search.
pub fn first_named(refs: &Vec<BottleRef>, name: &str) -> (found: Option<usize>)
    requires
        sorted_refs(refs@),
    ensures
        match found {
            Some(i) => i < refs@.len() && refs@[i as int]@ == lowest_version(ids(refs@), name@)
                && refs@[i as int].name@ == name@ && has_name(ids(refs@), name@)
                && is_lowest_version(ids(refs@), refs@[i as int]@),
            None => !has_name(ids(refs@), name@),
        },
{
    let least = BottleRef { name: name.to_owned(), version: String::new() };
    let at = lower_bound(refs, &least);
    let hit = at < refs.len() && same_str(refs[at].name.as_str(), name);
    proof {
        assert(least@ == BottleId { name: name@, version: Seq::<char>::empty() });
        assert forall|j: int| 0 <= j < refs@.len() && (#[trigger] refs@[j]).name@
            == name@ implies hit && at <= j by {
            lemma_empty_version_is_least(name@, refs@[j]@);
            if !hit && at < refs@.len() {
                let first = refs@[at as int]@;
                lemma_str_order_equal(first.name, name@);
                lemma_str_order_flip(first.name, name@);
                if at < j {
                    assert(id_lt(first, refs@[j]@));
                    lemma_str_order_equal(first.name, refs@[j].name@);
                }
            }
        }
        if hit {
            let id = refs@[at as int]@;
            assert forall|other: BottleId|
                ids(refs@).contains(other) && other.name == id.name implies str_order(
                id.version,
                other.version,
            ) != Order::Greater by {
                let j = choose|j: int| 0 <= j < refs@.len() && (#[trigger] refs@[j])@ == other;
                assert(refs@[j].name@ == name@);
                lemma_str_order_equal(id.name, other.name);
                lemma_str_order_equal(id.version, other.version);
                if j > at {
                    assert(id_lt(refs@[at as int]@, refs@[j]@));
                }
            }
            lemma_lowest_version_unique(ids(refs@), id);
            assert(ids(refs@).contains(id) && id.name == name@);
        } else if has_name(ids(refs@), name@) {
            let id = choose|id: BottleId| ids(refs@).contains(id) && id.name == name@;
            let j = choose|j: int| 0 <= j < refs@.len() && (#[trigger] refs@[j])@ == id;
            assert(refs@[j].name@ == name@);
        }
    }
    if hit {
        Some(at)
    } else {
        None
    }
}

/// Copies a sorted list of references.
pub fn copy_refs(refs: &Vec<BottleRef>) -> (copy: Vec<BottleRef>)
    requires
        sorted_refs(refs@),
    ensures
        sorted_refs(copy@),
        ids(copy@) == ids(refs@),
        copy@.len() == refs@.len(),
        forall|i: int| 0 <= i < refs@.len() ==> (#[trigger] copy@[i])@ == refs@[i]@,
{
    let mut copy: Vec<BottleRef> = Vec::new();
    let mut i: usize = 0;
    while i < refs.len()
        invariant
            i <= refs@.len(),
            copy@.len() == i,
            forall|k: int| 0 <= k < i ==> (#[trigger] copy@[k])@ == refs@[k]@,
        decreases refs@.len() - i,
    {
        copy.push(refs[i].clone());
        i += 1;
    }
    proof {
        assert forall|a: int, b: int| 0 <= a < b < copy@.len() implies id_lt(
            #[trigger] copy@[a]@,
            #[trigger] copy@[b]@,
        ) by {
            assert(id_lt(refs@[a]@, refs@[b]@));
        }
        assert forall|id: BottleId| ids(copy@).contains(id) == ids(refs@).contains(id) by {
            if ids(copy@).contains(id) {
                let k = choose|k: int| 0 <= k < copy@.len() && (#[trigger] copy@[k])@ == id;
                assert(refs@[k]@ == id);
            }
            if ids(refs@).contains(id) {
                let k = choose|k: int| 0 <= k < refs@.len() && (#[trigger] refs@[k])@ == id;
                assert(copy@[k]@ == id);
            }
        }
        assert(ids(copy@) =~= ids(refs@));
    }
    copy
}

/// The identities among the leading `n` references whose flag is set.
pub open spec fn flagged_ids(refs: Seq<BottleRef>, keep: Seq<bool>, n: int) -> Set<BottleId> {
    Set::new(
        |id: BottleId| exists|j: int| 0 <= j < n && keep[j] && (#[trigger] refs[j])@ == id,
    )
}

/// A list with one more reference holds one more identity.
pub proof fn lemma_ids_push(refs: Seq<BottleRef>, item: BottleRef)
    ensures
        ids(refs.push(item)) == ids(refs).insert(item@),
{
    let longer = refs.push(item);
    assert forall|id: BottleId| ids(longer).contains(id) == ids(refs).insert(item@).contains(
        id,
    ) by {
        if ids(longer).contains(id) {
            let i = choose|i: int| 0 <= i < longer.len() && (#[trigger] longer[i])@ == id;
            if i < refs.len() {
                assert(refs[i]@ == id);
            }
        }
        if ids(refs).contains(id) {
            let i = choose|i: int| 0 <= i < refs.len() && (#[trigger] refs[i])@ == id;
            assert(longer[i]@ == id);
        }
        if id == item@ {
            assert(longer[refs.len() as int]@ == id);
        }
    }
    assert(ids(longer) =~= ids(refs).insert(item@));
}

/// What one more reference adds to the flagged identities.
pub proof fn lemma_flagged_ids_step(refs: Seq<BottleRef>, keep: Seq<bool>, n: int)
    requires
        0 <= n < refs.len(),
        keep.len() == refs.len(),
    ensures
        flagged_ids(refs, keep, n + 1) == if keep[n] {
            flagged_ids(refs, keep, n).insert(refs[n]@)
        } else {
            flagged_ids(refs, keep, n)
        },
{
    let stepped = flagged_ids(refs, keep, n + 1);
    let expected = if keep[n] {
        flagged_ids(refs, keep, n).insert(refs[n]@)
    } else {
        flagged_ids(refs, keep, n)
    };
    assert forall|id: BottleId| stepped.contains(id) == expected.contains(id) by {
        if stepped.contains(id) {
            let j = choose|j: int| 0 <= j < n + 1 && keep[j] && (#[trigger] refs[j])@ == id;
            if j < n {
                assert(flagged_ids(refs, keep, n).contains(id));
            }
        }
        if flagged_ids(refs, keep, n).contains(id) {
            let j = choose|j: int| 0 <= j < n && keep[j] && (#[trigger] refs[j])@ == id;
            assert(0 <= j < n + 1 && keep[j] && refs[j]@ == id);
        }
        if keep[n] && id == refs[n]@ {
            assert(0 <= n < n + 1 && keep[n] && refs[n]@ == id);
        }
    }
    assert(stepped =~= expected);
}

/// Copies out the references whose flag is set, in order.
pub fn keep_flagged(refs: &Vec<BottleRef>, keep: &Vec<bool>) -> (kept: Vec<BottleRef>)
    requires
        sorted_refs(refs@),
        keep@.len() == refs@.len(),
    ensures
        sorted_refs(kept@),
        ids(kept@) == flagged_ids(refs@, keep@, refs@.len() as int),
{
    let mut kept: Vec<BottleRef> = Vec::new();
    let mut i: usize = 0;
    proof {
        assert(ids(kept@) =~= flagged_ids(refs@, keep@, 0));
    }
    while i < refs.len()
        invariant
            i <= refs@.len(),
            keep@.len() == refs@.len(),
            sorted_refs(refs@),
            sorted_refs(kept@),
            ids(kept@) == flagged_ids(refs@, keep@, i as int),
        decreases refs@.len() - i,
    {
        proof {
            lemma_flagged_ids_step(refs@, keep@, i as int);
        }
        if keep[i] {
            let ghost before = kept@;
            kept.push(refs[i].clone());
            proof {
                let last = before.len() as int;
                assert(kept@[last]@ == refs@[i as int]@);
                lemma_ids_push(before, kept@[last]);
                assert(kept@ =~= before.push(kept@[last]));
                assert forall|a: int, b: int| 0 <= a < b < kept@.len() implies id_lt(
                    #[trigger] kept@[a]@,
                    #[trigger] kept@[b]@,
                ) by {
                    assert(kept@[a] == before[a]);
                    if b == last {
                        assert(ids(before).contains(before[a]@));
                        let j = choose|j: int|
                            0 <= j < i && keep@[j] && (#[trigger] refs@[j])@ == before[a]@;
                        assert(id_lt(refs@[j]@, refs@[i as int]@));
                    } else {
                        assert(kept@[b] == before[b]);
                    }
                }
            }
        }
        i += 1;
    }
    kept
}


/// The references of `refs` that `other` does not hold, in order.
pub fn difference(refs: &Vec<BottleRef>, other: &Vec<BottleRef>) -> (rest: Vec<BottleRef>)
    requires
        sorted_refs(refs@),
        sorted_refs(other@),
    ensures
        sorted_refs(rest@),
        ids(rest@) == ids(refs@).difference(ids(other@)),
{
    let mut keep: Vec<bool> = Vec::new();
    let mut i: usize = 0;
    while i < refs.len()
        invariant
            i <= refs@.len(),
            keep@.len() == i,
            sorted_refs(other@),
            forall|j: int| 0 <= j < i ==> keep@[j] == !ids(other@).contains(#[trigger] refs@[j]@),
        decreases refs@.len() - i,
    {
        keep.push(index_of(other, &refs[i]).is_none());
        i += 1;
    }
    let rest = keep_flagged(refs, &keep);
    proof {
        let wanted = ids(refs@).difference(ids(other@));
        assert forall|id: BottleId| ids(rest@).contains(id) == wanted.contains(id) by {
            if ids(rest@).contains(id) {
                let j = choose|j: int|
                    0 <= j < refs@.len() && keep@[j] && (#[trigger] refs@[j])@ == id;
                assert(ids(refs@).contains(refs@[j]@));
            }
            if wanted.contains(id) {
                let j = choose|j: int| 0 <= j < refs@.len() && (#[trigger] refs@[j])@ == id;
                assert(keep@[j]);
            }
        }
        assert(ids(rest@) =~= wanted);
    }
    rest
}

/// The references of `refs` that are not called `name`, in order.
pub fn remove_named(refs: &Vec<BottleRef>, name: &str) -> (rest: Vec<BottleRef>)
    requires
        sorted_refs(refs@),
    ensures
        sorted_refs(rest@),
        ids(rest@) == without_name(ids(refs@), name@),
{
    let mut keep: Vec<bool> = Vec::new();
    let mut i: usize = 0;
    while i < refs.len()
        invariant
            i <= refs@.len(),
            keep@.len() == i,
            forall|j: int| 0 <= j < i ==> keep@[j] == ((#[trigger] refs@[j]).name@ != name@),
        decreases refs@.len() - i,
    {
        keep.push(!same_str(refs[i].name.as_str(), name));
        i += 1;
    }
    let rest = keep_flagged(refs, &keep);
    proof {
        let wanted = without_name(ids(refs@), name@);
        assert forall|id: BottleId| ids(rest@).contains(id) == wanted.contains(id) by {
            if ids(rest@).contains(id) {
                let j = choose|j: int|
                    0 <= j < refs@.len() && keep@[j] && (#[trigger] refs@[j])@ == id;
                assert(ids(refs@).contains(refs@[j]@));
            }
            if wanted.contains(id) {
                let j = choose|j: int| 0 <= j < refs@.len() && (#[trigger] refs@[j])@ == id;
                assert(keep@[j]);
            }
        }
        assert(ids(rest@) =~= wanted);
    }
    rest
}

} // verus!
