//! The alias index: each alias of each formula, in the order of the
//! aliases, so that an alias is found by binary search.

use vstd::prelude::*;
use crate::formulae::{alias_position, has_alias, lemma_find_alias, Formula};
use crate::text::{
    compare_str, lemma_str_lt_trans, lemma_str_order_equal, lemma_str_order_flip, str_order, Order,
};

verus! {

/// An alias, and the position of a formula that goes by it.
#[derive(Clone, Debug)]
pub struct AliasEntry {
    pub alias: String,
    pub position: usize,
}

/// The aliases grow from each entry to the next, or stay; where they stay,
/// the positions grow or stay.
pub open spec fn in_alias_order(entries: Seq<AliasEntry>) -> bool {
    forall|i: int, j: int|
        0 <= i < j < entries.len() ==> follows(#[trigger] entries[i], #[trigger] entries[j])
}

/// `later` may stand behind `earlier` in the alias index.
pub open spec fn follows(earlier: AliasEntry, later: AliasEntry) -> bool {
    match str_order(earlier.alias@, later.alias@) {
        Order::Less => true,
        Order::Equal => earlier.position <= later.position,
        Order::Greater => false,
    }
}

/// Each entry names a formula that goes by its alias.
pub open spec fn entries_sound(entries: Seq<AliasEntry>, formulae: Seq<Formula>) -> bool {
    forall|i: int|
        0 <= i < entries.len() ==> (#[trigger] entries[i]).position < formulae.len() && has_alias(
            formulae[entries[i].position as int],
            entries[i].alias@,
        )
}

/// Some entry lists `alias` for the formula at `position`.
pub open spec fn lists(entries: Seq<AliasEntry>, alias: Seq<char>, position: int) -> bool {
    exists|i: int|
        0 <= i < entries.len() && (#[trigger] entries[i]).alias@ == alias && entries[i].position
            == position
}

/// The entries list every alias of the formulae before the one at `p`, and
/// the leading `k` aliases of that one.
pub open spec fn covers(entries: Seq<AliasEntry>, formulae: Seq<Formula>, p: int, k: int) -> bool {
    forall|q: int, a: int|
        0 <= q < formulae.len() && 0 <= a < formulae[q].aliases@.len() && (q < p || (q == p && a
            < k)) ==> lists(entries, #[trigger] formulae[q].aliases@[a]@, q)
}

/// The entries are the alias index of the formulae.
pub open spec fn is_alias_index(entries: Seq<AliasEntry>, formulae: Seq<Formula>) -> bool {
    &&& in_alias_order(entries)
    &&& entries_sound(entries, formulae)
    &&& covers(entries, formulae, formulae.len() as int, 0)
}

/// Whether an entry with the alias `held` stands before the place that is
/// looked for: before the first entry whose alias is `alias` or greater,
/// or, with `past_equals`, before the first entry whose alias is greater.
pub open spec fn stands_before(held: Seq<char>, alias: Seq<char>, past_equals: bool) -> bool {
    if past_equals {
        str_order(held, alias) != Order::Greater
    } else {
        str_order(held, alias) == Order::Less
    }
}

/// What stands before an entry that stands before the place stands before
/// the place as well.
proof fn lemma_stands_before_earlier(
    earlier: AliasEntry,
    later: AliasEntry,
    alias: Seq<char>,
    past_equals: bool,
)
    requires
        follows(earlier, later),
        stands_before(later.alias@, alias, past_equals),
    ensures
        stands_before(earlier.alias@, alias, past_equals),
{
    lemma_str_order_equal(earlier.alias@, later.alias@);
    lemma_str_order_equal(later.alias@, alias);
    if str_order(earlier.alias@, later.alias@) == Order::Less && str_order(later.alias@, alias)
        == Order::Less {
        lemma_str_lt_trans(earlier.alias@, later.alias@, alias);
    }
}

/// The first place in the alias index whose entry does not stand before
/// the place that is looked for.
fn bound(entries: &Vec<AliasEntry>, alias: &str, past_equals: bool) -> (at: usize)
    requires
        in_alias_order(entries@),
    ensures
        at <= entries@.len(),
        forall|j: int|
            0 <= j < at ==> stands_before((#[trigger] entries@[j]).alias@, alias@, past_equals),
        forall|j: int|
            at <= j < entries@.len() ==> !stands_before(
                (#[trigger] entries@[j]).alias@,
                alias@,
                past_equals,
            ),
{
    let mut lo: usize = 0;
    let mut hi: usize = entries.len();
    while lo < hi
        invariant
            lo <= hi <= entries@.len(),
            in_alias_order(entries@),
            forall|j: int|
                0 <= j < lo ==> stands_before((#[trigger] entries@[j]).alias@, alias@, past_equals),
            forall|j: int|
                hi <= j < entries@.len() ==> !stands_before(
                    (#[trigger] entries@[j]).alias@,
                    alias@,
                    past_equals,
                ),
        decreases hi - lo,
    {
        let mid = lo + (hi - lo) / 2;
        let order = compare_str(entries[mid].alias.as_str(), alias);
        let before = if past_equals {
            order != Order::Greater
        } else {
            order == Order::Less
        };
        if before {
            proof {
                assert forall|j: int| 0 <= j < mid + 1 implies stands_before(
                    (#[trigger] entries@[j]).alias@,
                    alias@,
                    past_equals,
                ) by {
                    if j < mid {
                        lemma_stands_before_earlier(
                            entries@[j],
                            entries@[mid as int],
                            alias@,
                            past_equals,
                        );
                    }
                }
            }
            lo = mid + 1;
        } else {
            proof {
                assert forall|j: int| mid <= j < entries@.len() implies !stands_before(
                    (#[trigger] entries@[j]).alias@,
                    alias@,
                    past_equals,
                ) by {
                    if mid < j && stands_before(entries@[j].alias@, alias@, past_equals) {
                        lemma_stands_before_earlier(
                            entries@[mid as int],
                            entries@[j],
                            alias@,
                            past_equals,
                        );
                    }
                }
            }
            hi = mid;
        }
    }
    lo
}

/// Builds the alias index of a formula list.
pub fn build(formulae: &Vec<Formula>) -> (entries: Vec<AliasEntry>)
    ensures
        is_alias_index(entries@, formulae@),
{
    let mut entries: Vec<AliasEntry> = Vec::new();
    let mut p: usize = 0;
    while p < formulae.len()
        invariant
            p <= formulae@.len(),
            in_alias_order(entries@),
            entries_sound(entries@, formulae@),
            covers(entries@, formulae@, p as int, 0),
            forall|i: int| 0 <= i < entries@.len() ==> (#[trigger] entries@[i]).position < p,
        decreases formulae@.len() - p,
    {
        let formula = &formulae[p];
        let mut k: usize = 0;
        while k < formula.aliases.len()
            invariant
                p < formulae@.len(),
                *formula == formulae@[p as int],
                k <= formula.aliases@.len(),
                in_alias_order(entries@),
                entries_sound(entries@, formulae@),
                covers(entries@, formulae@, p as int, k as int),
                forall|i: int| 0 <= i < entries@.len() ==> (#[trigger] entries@[i]).position <= p,
            decreases formula.aliases@.len() - k,
        {
            let alias = &formula.aliases[k];
            let at = bound(&entries, alias.as_str(), true);
            let entry = AliasEntry { alias: alias.clone(), position: p };
            let ghost before = entries@;
            entries.insert(at, entry);
            proof {
                let after = entries@;
                let added = after[at as int];
                assert(added.alias@ == alias@ && added.position == p);
                assert(forall|j: int| 0 <= j < at ==> after[j] == before[j]);
                assert(forall|j: int| at < j < after.len() ==> after[j] == before[j - 1]);
                assert forall|i: int, j: int| 0 <= i < j < after.len() implies follows(
                    #[trigger] after[i],
                    #[trigger] after[j],
                ) by {
                    if j < at {
                        assert(follows(before[i], before[j]));
                    } else if j == at {
                        assert(stands_before(before[i].alias@, alias@, true));
                    } else if i < at {
                        assert(follows(before[i], before[j - 1]));
                    } else if i == at {
                        assert(!stands_before(before[j - 1].alias@, alias@, true));
                        lemma_str_order_flip(before[j - 1].alias@, alias@);
                    } else {
                        assert(follows(before[i - 1], before[j - 1]));
                    }
                }
                assert(has_alias(formulae@[p as int], alias@));
                assert forall|q: int, a: int|
                    0 <= q < formulae@.len() && 0 <= a < formulae@[q].aliases@.len() && (q < p || (q
                        == p && a < k + 1)) implies lists(
                    after,
                    #[trigger] formulae@[q].aliases@[a]@,
                    q,
                ) by {
                    if q == p && a == k {
                        assert(after[at as int].alias@ == formulae@[q].aliases@[a]@);
                    } else {
                        let name = formulae@[q].aliases@[a]@;
                        assert(lists(before, name, q));
                        let i = choose|i: int|
                            0 <= i < before.len() && (#[trigger] before[i]).alias@ == name
                                && before[i].position == q;
                        if i < at {
                            assert(after[i] == before[i]);
                        } else {
                            assert(after[i + 1] == before[i]);
                        }
                    }
                }
            }
            k += 1;
        }
        p += 1;
    }
    entries
}

/// Looks an alias up in the alias index: the position of the first formula
/// that goes by it.
pub fn lookup(entries: &Vec<AliasEntry>, formulae: &Vec<Formula>, alias: &str) -> (found: Option<
    usize,
>)
    requires
        is_alias_index(entries@, formulae@),
    ensures
        found matches Some(i) ==> i < formulae@.len(),
        alias_position(formulae@, alias@) == match found {
            Some(i) => Some(i as int),
            None => None,
        },
{
    let at = bound(entries, alias, false);
    let hit = at < entries.len() && compare_str(entries[at].alias.as_str(), alias) == Order::Equal;
    proof {
        lemma_find_alias(formulae@, alias@, formulae@.len());
        assert forall|p: int| 0 <= p < formulae@.len() && has_alias(formulae@[p], alias@) implies hit
            && entries@[at as int].position <= p by {
            let a = choose|a: int|
                0 <= a < formulae@[p].aliases@.len() && #[trigger] formulae@[p].aliases@[a]@
                    == alias@;
            assert(lists(entries@, formulae@[p].aliases@[a]@, p));
            let i = choose|i: int|
                0 <= i < entries@.len() && (#[trigger] entries@[i]).alias@ == alias@
                    && entries@[i].position == p;
            lemma_str_order_equal(entries@[i].alias@, alias@);
            if i < at {
                assert(stands_before(entries@[i].alias@, alias@, false));
            }
            if at < i {
                assert(follows(entries@[at as int], entries@[i]));
                assert(!stands_before(entries@[at as int].alias@, alias@, false));
                lemma_str_order_flip(entries@[at as int].alias@, alias@);
                lemma_str_order_equal(entries@[at as int].alias@, alias@);
            }
        }
    }
    if hit {
        Some(entries[at].position)
    } else {
        None
    }
}

} // verus!
