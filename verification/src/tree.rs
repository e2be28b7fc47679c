//! The installed bottles, as a list and as a tree of what depends on what.

use vstd::prelude::*;
use vstd::string::StringExecFns;
use crate::action_builder::{row_position, row_with_id};
use crate::db::models::{Dependency, DownloadedBottle};
use crate::graph::{lemma_live_total_kill, live_total};
use crate::text::{compare_str, str_order, Order};

verus! {

/// A tree of texts while `ptree` builds it.
#[verifier::external_type_specification]
#[verifier::external_body]
pub struct ExTreeBuilder(ptree::TreeBuilder);

/// A tree of texts as `ptree` prints it.
#[verifier::external_type_specification]
#[verifier::external_body]
pub struct ExStringItem(ptree::item::StringItem);

/// A line of a tree: how deep it stands below the top, and its text.
pub struct Row {
    pub depth: int,
    pub text: Seq<char>,
}

/// The lines of the tree that a builder has put together, from the top
/// down, each under the line that is its parent.
pub uninterp spec fn built_rows(builder: ptree::TreeBuilder) -> Seq<Row>;

/// How deep below the top the line stands that a builder adds children
/// to.
pub uninterp spec fn built_depth(builder: ptree::TreeBuilder) -> int;

/// The lines of a finished tree, from the top down.
pub uninterp spec fn item_rows(item: ptree::item::StringItem) -> Seq<Row>;

/// A builder for a tree with the given top line, by
/// `ptree::TreeBuilder::new`. Children are added to the top line.
#[verifier::external_body]
fn new_tree(text: String) -> (builder: ptree::TreeBuilder)
    ensures
        built_rows(builder) == seq![Row { depth: 0, text: text@ }],
        built_depth(builder) == 0,
{
    ptree::TreeBuilder::new(text)
}

/// Adds a child to the current line and makes it the current line, by
/// `ptree::TreeBuilder::begin_child`.
#[verifier::external_body]
fn begin_child(builder: &mut ptree::TreeBuilder, text: String)
    requires
        built_depth(*old(builder)) < u32::MAX,
    ensures
        built_rows(*final(builder)) == built_rows(*old(builder)).push(
            Row { depth: built_depth(*old(builder)) + 1, text: text@ },
        ),
        built_depth(*final(builder)) == built_depth(*old(builder)) + 1,
{
    builder.begin_child(text);
}

/// Makes the parent of the current line the current line, by
/// `ptree::TreeBuilder::end_child`. The top line has no parent to go back
/// to.
#[verifier::external_body]
fn end_child(builder: &mut ptree::TreeBuilder)
    requires
        built_depth(*old(builder)) > 0,
    ensures
        built_rows(*final(builder)) == built_rows(*old(builder)),
        built_depth(*final(builder)) == built_depth(*old(builder)) - 1,
{
    builder.end_child();
}

/// Adds a child without children to the current line, by
/// `ptree::TreeBuilder::add_empty_child`.
#[verifier::external_body]
fn add_empty_child(builder: &mut ptree::TreeBuilder, text: String)
    requires
        built_depth(*old(builder)) < u32::MAX,
    ensures
        built_rows(*final(builder)) == built_rows(*old(builder)).push(
            Row { depth: built_depth(*old(builder)) + 1, text: text@ },
        ),
        built_depth(*final(builder)) == built_depth(*old(builder)),
{
    builder.add_empty_child(text);
}

/// The tree that a builder has put together, by
/// `ptree::TreeBuilder::build`.
#[verifier::external_body]
fn build(builder: &mut ptree::TreeBuilder) -> (item: ptree::item::StringItem)
    ensures
        item_rows(item) == built_rows(*old(builder)),
        built_rows(*final(builder)) == built_rows(*old(builder)),
        built_depth(*final(builder)) == built_depth(*old(builder)),
{
    builder.build()
}

/// The line that lists a bottle: its name and its version.
pub open spec fn label(row: DownloadedBottle) -> Seq<char> {
    row.spec_name() + seq![' '] + row.spec_version()
}

/// The line that stands for a bottle that the tree has shown before.
pub open spec fn repeated_label(row: DownloadedBottle) -> Seq<char> {
    label(row) + seq![' ', '(', '*', ')']
}

fn label_of(row: &DownloadedBottle) -> (text: String)
    ensures
        text@ == label(*row),
{
    proof {
        reveal_strlit(" ");
        assert(" "@ =~= seq![' ']);
    }
    let mut text = row.name().to_owned();
    text.append(" ");
    text.append(row.version());
    text
}

fn repeated_label_of(row: &DownloadedBottle) -> (text: String)
    ensures
        text@ == repeated_label(*row),
{
    proof {
        reveal_strlit(" (*)");
        assert(" (*)"@ =~= seq![' ', '(', '*', ')']);
    }
    let mut text = label_of(row);
    text.append(" (*)");
    text
}

/// The lines of the list of installed bottles: the label of each row, in
/// the order of the rows.
pub fn list_bottles(bottles: &Vec<DownloadedBottle>) -> (lines: Vec<String>)
    ensures
        lines@.len() == bottles@.len(),
        forall|i: int| 0 <= i < bottles@.len() ==> (#[trigger] lines@[i])@ == label(bottles@[i]),
{
    let mut lines: Vec<String> = Vec::new();
    let mut i: usize = 0;
    while i < bottles.len()
        invariant
            i <= bottles@.len(),
            lines@.len() == i,
            forall|k: int| 0 <= k < i ==> (#[trigger] lines@[k])@ == label(bottles@[k]),
        decreases bottles@.len() - i,
    {
        lines.push(label_of(&bottles[i]));
        i += 1;
    }
    lines
}

/// Where the row at position `child` goes among `listed`, which are
/// ordered by name: behind every row whose name does not sort after its
/// own.
pub open spec fn place_by_name(rows: Seq<DownloadedBottle>, listed: Seq<int>, child: int) -> int
    decreases listed.len(),
{
    if listed.len() == 0 {
        0
    } else if str_order(rows[listed[0]].spec_name(), rows[child].spec_name()) == Order::Greater {
        0
    } else {
        1 + place_by_name(rows, listed.drop_first(), child)
    }
}

proof fn lemma_place_by_name_is(rows: Seq<DownloadedBottle>, listed: Seq<int>, child: int, at: int)
    requires
        0 <= at <= listed.len(),
        forall|i: int|
            0 <= i < at ==> str_order(rows[#[trigger] listed[i]].spec_name(), rows[child].spec_name())
                != Order::Greater,
        at < listed.len() ==> str_order(rows[listed[at]].spec_name(), rows[child].spec_name())
            == Order::Greater,
    ensures
        place_by_name(rows, listed, child) == at,
    decreases at,
{
    if at > 0 {
        let rest = listed.drop_first();
        assert(str_order(rows[listed[0]].spec_name(), rows[child].spec_name()) != Order::Greater);
        assert forall|i: int| 0 <= i < at - 1 implies str_order(
            rows[#[trigger] rest[i]].spec_name(),
            rows[child].spec_name(),
        ) != Order::Greater by {
            assert(rest[i] == listed[i + 1]);
        }
        if at < listed.len() {
            assert(rest[at - 1] == listed[at]);
        }
        lemma_place_by_name_is(rows, rest, child, at - 1);
    }
}

/// The positions of the rows that the leading `n` dependency rows list
/// under `parent`, ordered by name; rows of the same name stay in the
/// order in which they are listed.
pub open spec fn children_of(
    rows: Seq<DownloadedBottle>,
    dependencies: Seq<Dependency>,
    parent: Option<i32>,
    n: nat,
) -> Seq<int>
    decreases n,
{
    if n == 0 {
        Seq::empty()
    } else {
        let listed = children_of(rows, dependencies, parent, (n - 1) as nat);
        let dependency = dependencies[n - 1];
        if dependency.spec_dependent_id() == parent {
            match row_position(rows, dependency.spec_dependency_id()) {
                Some(child) => listed.insert(place_by_name(rows, listed, child), child),
                None => listed,
            }
        } else {
            listed
        }
    }
}

/// Each position in the list is the position of a row.
pub open spec fn positions_within(listed: Seq<usize>, n: int) -> bool {
    forall|i: int| 0 <= i < listed.len() ==> #[trigger] listed[i] < n
}

/// The same positions, as integers.
pub open spec fn as_ints(listed: Seq<usize>) -> Seq<int> {
    Seq::new(listed.len(), |i: int| listed[i] as int)
}

fn list_children(
    rows: &Vec<DownloadedBottle>,
    dependencies: &Vec<Dependency>,
    parent: Option<i32>,
) -> (listed: Vec<usize>)
    ensures
        positions_within(listed@, rows@.len() as int),
        as_ints(listed@) == children_of(rows@, dependencies@, parent, dependencies@.len()),
{
    let mut listed: Vec<usize> = Vec::new();
    let mut k: usize = 0;
    proof {
        assert(as_ints(listed@) =~= Seq::<int>::empty());
    }
    while k < dependencies.len()
        invariant
            k <= dependencies@.len(),
            positions_within(listed@, rows@.len() as int),
            as_ints(listed@) == children_of(rows@, dependencies@, parent, k as nat),
        decreases dependencies@.len() - k,
    {
        let dependency = &dependencies[k];
        let under = match (dependency.dependent_id(), parent) {
            (Some(a), Some(b)) => a == b,
            (None, None) => true,
            _ => false,
        };
        if under {
            if let Some(child) = row_with_id(rows, dependency.dependency_id()) {
                let ghost before = as_ints(listed@);
                let mut at: usize = 0;
                while at < listed.len() && compare_str(
                    rows[listed[at]].name(),
                    rows[child].name(),
                ) != Order::Greater
                    invariant
                        at <= listed@.len(),
                        child < rows@.len(),
                        positions_within(listed@, rows@.len() as int),
                        before == as_ints(listed@),
                        forall|i: int|
                            0 <= i < at ==> str_order(
                                rows@[#[trigger] before[i]].spec_name(),
                                rows@[child as int].spec_name(),
                            ) != Order::Greater,
                    decreases listed@.len() - at,
                {
                    assert(before[at as int] == listed@[at as int]);
                    at += 1;
                }
                proof {
                    if at < listed@.len() {
                        assert(before[at as int] == listed@[at as int]);
                    }
                    lemma_place_by_name_is(rows@, before, child as int, at as int);
                }
                listed.insert(at, child);
                proof {
                    assert(as_ints(listed@) =~= before.insert(at as int, child as int));
                }
            }
        }
        k += 1;
    }
    listed
}

/// How much is left to show at most: a line for each child of each bottle
/// among the leading `n` that was not shown yet, and a step to get there.
pub open spec fn pending(children: Seq<Seq<int>>, unseen: Seq<bool>, n: nat) -> nat
    decreases n,
{
    if n == 0 {
        0
    } else {
        pending(children, unseen, (n - 1) as nat) + if unseen[n - 1] {
            children[n - 1].len() + 1
        } else {
            0nat
        }
    }
}

proof fn lemma_pending_kill(children: Seq<Seq<int>>, unseen: Seq<bool>, s: int, n: nat)
    requires
        0 <= s < unseen.len(),
        n <= unseen.len(),
        unseen[s],
    ensures
        pending(children, unseen.update(s, false), n) == pending(children, unseen, n) - (if s < n {
            children[s].len() + 1
        } else {
            0nat
        }),
    decreases n,
{
    if n > 0 {
        lemma_pending_kill(children, unseen, s, (n - 1) as nat);
    }
}

proof fn lemma_pending_shrinks(children: Seq<Seq<int>>, unseen: Seq<bool>, after: Seq<bool>, n: nat)
    requires
        n <= unseen.len(),
        after.len() == unseen.len(),
        forall|i: int| 0 <= i < after.len() && after[i] ==> unseen[i],
    ensures
        pending(children, after, n) <= pending(children, unseen, n),
    decreases n,
{
    if n > 0 {
        lemma_pending_shrinks(children, unseen, after, (n - 1) as nat);
    }
}

/// The lines for the bottles at the positions `siblings`, from the one at
/// `from` on, each followed by the lines for what it depends on, one level
/// deeper; and which bottles are still not shown after that.
///
/// A bottle that was shown before gets a line that says so, and nothing
/// below it. `budget` bounds the number of steps.
pub open spec fn shown(
    budget: nat,
    rows: Seq<DownloadedBottle>,
    children: Seq<Seq<int>>,
    siblings: Seq<int>,
    from: int,
    depth: int,
    unseen: Seq<bool>,
) -> (Seq<Row>, Seq<bool>)
    decreases budget,
{
    if budget == 0 || from < 0 || from >= siblings.len() {
        (Seq::empty(), unseen)
    } else {
        let s = siblings[from];
        if 0 <= s < unseen.len() && unseen[s] {
            let below = shown(
                (budget - 1) as nat,
                rows,
                children,
                children[s],
                0,
                depth + 1,
                unseen.update(s, false),
            );
            let rest = shown(
                (budget - 1) as nat,
                rows,
                children,
                siblings,
                from + 1,
                depth,
                below.1,
            );
            (seq![Row { depth, text: label(rows[s]) }] + below.0 + rest.0, rest.1)
        } else {
            let rest = shown((budget - 1) as nat, rows, children, siblings, from + 1, depth, unseen);
            (seq![Row { depth, text: repeated_label(rows[s]) }] + rest.0, rest.1)
        }
    }
}

/// For each row, the rows that it depends on, ordered by name.
pub open spec fn all_children(rows: Seq<DownloadedBottle>, dependencies: Seq<Dependency>) -> Seq<
    Seq<int>,
> {
    Seq::new(
        rows.len(),
        |p: int| children_of(rows, dependencies, Some(rows[p].spec_id()), dependencies.len()),
    )
}

/// The lines of the tree of installed bottles: a heading, the roots below
/// it, and below each bottle what it depends on. What was shown once is
/// only mentioned when it comes up again.
pub open spec fn tree_rows(rows: Seq<DownloadedBottle>, dependencies: Seq<Dependency>) -> Seq<Row> {
    let children = all_children(rows, dependencies);
    let roots = children_of(rows, dependencies, None, dependencies.len());
    let unseen = Seq::new(rows.len(), |i: int| true);
    seq![Row { depth: 0, text: "Installed bottles:"@ }] + shown(
        pending(children, unseen, rows.len()) + roots.len(),
        rows,
        children,
        roots,
        0,
        1,
        unseen,
    ).0
}

/// The lists of positions, as integers.
pub open spec fn as_int_lists(lists: Seq<Vec<usize>>) -> Seq<Seq<int>> {
    Seq::new(lists.len(), |p: int| as_ints(lists[p]@))
}

fn show(
    builder: &mut ptree::TreeBuilder,
    rows: &Vec<DownloadedBottle>,
    children: &Vec<Vec<usize>>,
    siblings: &Vec<usize>,
    from: usize,
    unseen: &mut Vec<bool>,
    Ghost(budget): Ghost<nat>,
)
    requires
        children@.len() == rows@.len(),
        old(unseen)@.len() == rows@.len(),
        forall|p: int|
            0 <= p < children@.len() ==> positions_within(
                (#[trigger] children@[p])@,
                rows@.len() as int,
            ),
        positions_within(siblings@, rows@.len() as int),
        from <= siblings@.len(),
        budget >= pending(as_int_lists(children@), old(unseen)@, rows@.len()) + (siblings@.len()
            - from),
        built_depth(*old(builder)) >= 0,
        built_depth(*old(builder)) + live_total(old(unseen)@, rows@.len()) < u32::MAX,
    ensures
        final(unseen)@.len() == rows@.len(),
        forall|i: int| 0 <= i < rows@.len() && final(unseen)@[i] ==> old(unseen)@[i],
        built_depth(*final(builder)) == built_depth(*old(builder)),
        built_rows(*final(builder)) == built_rows(*old(builder)) + shown(
            budget,
            rows@,
            as_int_lists(children@),
            as_ints(siblings@),
            from as int,
            built_depth(*old(builder)) + 1,
            old(unseen)@,
        ).0,
        final(unseen)@ == shown(
            budget,
            rows@,
            as_int_lists(children@),
            as_ints(siblings@),
            from as int,
            built_depth(*old(builder)) + 1,
            old(unseen)@,
        ).1,
    decreases budget,
{
    let ghost n = rows@.len();
    let ghost lists = as_int_lists(children@);
    let ghost depth = built_depth(*builder) + 1;
    let ghost started = built_rows(*builder);
    let ghost marks = unseen@;
    if from >= siblings.len() {
        proof {
            assert(built_rows(*builder) =~= started + Seq::<Row>::empty());
        }
        return ;
    }
    let s = siblings[from];
    assert(as_ints(siblings@)[from as int] == s);
    assert(lists[s as int] == as_ints(children@[s as int]@));
    if unseen[s] {
        proof {
            lemma_pending_kill(lists, marks, s as int, n);
            lemma_live_total_kill(marks, s as int, n);
        }
        unseen[s] = false;
        let ghost cleared = unseen@;
        begin_child(builder, label_of(&rows[s]));
        show(builder, rows, children, &children[s], 0, unseen, Ghost((budget - 1) as nat));
        end_child(builder);
        let ghost below = shown(
            (budget - 1) as nat,
            rows@,
            lists,
            lists[s as int],
            0,
            depth + 1,
            cleared,
        );
        proof {
            lemma_pending_shrinks(lists, cleared, unseen@, n);
            lemma_live_total_shrinks(cleared, unseen@, n);
        }
        show(builder, rows, children, siblings, from + 1, unseen, Ghost((budget - 1) as nat));
        proof {
            let rest = shown(
                (budget - 1) as nat,
                rows@,
                lists,
                as_ints(siblings@),
                from + 1,
                depth,
                below.1,
            );
            assert(built_rows(*builder) =~= started + (seq![
                Row { depth, text: label(rows@[s as int]) },
            ] + below.0 + rest.0));
        }
    } else {
        add_empty_child(builder, repeated_label_of(&rows[s]));
        show(builder, rows, children, siblings, from + 1, unseen, Ghost((budget - 1) as nat));
        proof {
            let rest = shown(
                (budget - 1) as nat,
                rows@,
                lists,
                as_ints(siblings@),
                from + 1,
                depth,
                marks,
            );
            assert(built_rows(*builder) =~= started + (seq![
                Row { depth, text: repeated_label(rows@[s as int]) },
            ] + rest.0));
        }
    }
}

proof fn lemma_live_total_shrinks(unseen: Seq<bool>, after: Seq<bool>, n: nat)
    requires
        n <= unseen.len(),
        after.len() == unseen.len(),
        forall|i: int| 0 <= i < after.len() && after[i] ==> unseen[i],
    ensures
        live_total(after, n) <= live_total(unseen, n),
    decreases n,
{
    if n > 0 {
        lemma_live_total_shrinks(unseen, after, (n - 1) as nat);
    }
}

proof fn lemma_live_total_bound(flags: Seq<bool>, n: nat)
    ensures
        live_total(flags, n) <= n,
    decreases n,
{
    if n > 0 {
        lemma_live_total_bound(flags, (n - 1) as nat);
    }
}

/// Builds the tree of installed bottles: below a heading stand the roots,
/// and below each bottle the bottles that it depends on, ordered by name.
/// A bottle is shown with what it depends on where it first comes up, and
/// is only mentioned, marked `(*)`, wherever it comes up again.
pub fn display_tree(bottles: &Vec<DownloadedBottle>, dependencies: &Vec<Dependency>) -> (tree:
    ptree::item::StringItem)
    requires
        bottles@.len() < u32::MAX,
    ensures
        item_rows(tree) == tree_rows(bottles@, dependencies@),
{
    let n = bottles.len();
    let mut children: Vec<Vec<usize>> = Vec::new();
    let mut p: usize = 0;
    while p < n
        invariant
            p <= n,
            n == bottles@.len(),
            children@.len() == p,
            forall|i: int|
                0 <= i < p ==> positions_within((#[trigger] children@[i])@, n as int) && as_ints(
                    children@[i]@,
                ) == children_of(
                    bottles@,
                    dependencies@,
                    Some(bottles@[i].spec_id()),
                    dependencies@.len(),
                ),
        decreases n - p,
    {
        children.push(list_children(bottles, dependencies, Some(bottles[p].id())));
        p += 1;
    }
    let roots = list_children(bottles, dependencies, None);
    let mut unseen: Vec<bool> = vec![true; n];
    let mut builder = new_tree("Installed bottles:".to_owned());
    let ghost lists = as_int_lists(children@);
    let ghost budget = pending(lists, unseen@, n as nat) + roots@.len();
    proof {
        assert(lists =~= all_children(bottles@, dependencies@));
        assert(unseen@ =~= Seq::new(n as nat, |i: int| true));
        lemma_live_total_bound(unseen@, n as nat);
    }
    show(&mut builder, bottles, &children, &roots, 0, &mut unseen, Ghost(budget));
    build(&mut builder)
}

} // verus!
