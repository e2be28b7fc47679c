//! Paths as byte strings, and their components.
//!
//! A path is read the way `std::path::Path::components` reads it on Unix:
//! slashes part the components, repeated slashes and a slash at the end
//! count for nothing, a `.` counts only at the very start, and a slash at
//! the start is the root.

use vstd::prelude::*;
use crate::text::same_bytes;

verus! {

/// A component of a path.
#[derive(Debug, PartialEq, Eq)]
pub enum Component {
    /// The root: a slash at the start of the path.
    RootDir,
    /// A `.` at the start of the path.
    CurDir,
    /// A `..` anywhere in the path.
    ParentDir,
    /// Any other name.
    Normal(Vec<u8>),
}

/// What a `Component` stands for in specifications.
pub enum Part {
    RootDir,
    CurDir,
    ParentDir,
    Normal(Seq<u8>),
}

impl View for Component {
    type V = Part;

    open spec fn view(&self) -> Part {
        match self {
            Component::RootDir => Part::RootDir,
            Component::CurDir => Part::CurDir,
            Component::ParentDir => Part::ParentDir,
            Component::Normal(name) => Part::Normal(name@),
        }
    }
}

/// The views of a list of components.
pub open spec fn parts_of(components: Seq<Component>) -> Seq<Part> {
    Seq::new(components.len(), |i: int| components[i]@)
}

/// The byte that parts the components of a path: `/`.
pub const SLASH: u8 = 0x2f;

/// The byte that `.` and `..` are made of.
pub const DOT: u8 = 0x2e;

/// How many bytes stand before the first slash of `path`.
pub open spec fn name_len(path: Seq<u8>) -> int
    decreases path.len(),
{
    if path.len() == 0 || path[0] == SLASH {
        0
    } else {
        1 + name_len(path.drop_first())
    }
}

/// The component that a name between slashes makes, if it makes one: a
/// `.` makes none.
pub open spec fn part_of_name(name: Seq<u8>) -> Option<Part> {
    if name == seq![DOT] {
        None
    } else if name == seq![DOT, DOT] {
        Some(Part::ParentDir)
    } else {
        Some(Part::Normal(name))
    }
}

/// The components of `path` but for what its very start makes.
pub open spec fn inner_parts(path: Seq<u8>) -> Seq<Part>
    decreases path.len(),
    via inner_parts_decreases
{
    if path.len() == 0 {
        Seq::empty()
    } else if path[0] == SLASH {
        inner_parts(path.drop_first())
    } else {
        let n = name_len(path);
        match part_of_name(path.take(n)) {
            Some(part) => seq![part] + inner_parts(path.skip(n)),
            None => inner_parts(path.skip(n)),
        }
    }
}

#[via_fn]
proof fn inner_parts_decreases(path: Seq<u8>) {
    lemma_name_len_bounds(path);
}

/// The components of `path`.
pub open spec fn parts(path: Seq<u8>) -> Seq<Part> {
    if path.len() > 0 && path[0] == SLASH {
        seq![Part::RootDir] + inner_parts(path)
    } else if name_len(path) == 1 && path[0] == DOT {
        seq![Part::CurDir] + inner_parts(path)
    } else {
        inner_parts(path)
    }
}

proof fn lemma_name_len_bounds(path: Seq<u8>)
    ensures
        0 <= name_len(path) <= path.len(),
        name_len(path) < path.len() ==> path[name_len(path)] == SLASH,
        forall|i: int| 0 <= i < name_len(path) ==> path[i] != SLASH,
        path.len() > 0 && path[0] != SLASH ==> name_len(path) > 0,
    decreases path.len(),
{
    if path.len() == 0 || path[0] == SLASH {
    } else {
        let rest = path.drop_first();
        lemma_name_len_bounds(rest);
        assert forall|i: int| 0 <= i < name_len(path) implies path[i] != SLASH by {
            if i > 0 {
                assert(rest[i - 1] == path[i]);
            }
        }
        if name_len(path) < path.len() {
            assert(rest[name_len(rest)] == path[name_len(path)]);
        }
    }
}

/// A run of bytes without a slash, ended by a slash or by the end of the
/// path, is the name at the start of the path.
proof fn lemma_name_len_is(path: Seq<u8>, n: int)
    requires
        0 <= n <= path.len(),
        forall|i: int| 0 <= i < n ==> path[i] != SLASH,
        n < path.len() ==> path[n] == SLASH,
    ensures
        name_len(path) == n,
    decreases n,
{
    if n > 0 {
        let rest = path.drop_first();
        assert forall|i: int| 0 <= i < n - 1 implies rest[i] != SLASH by {
            assert(rest[i] == path[i + 1]);
        }
        lemma_name_len_is(rest, n - 1);
    }
}

/// Skipping the slashes at the start of a path leaves its inner components
/// as they are.
proof fn lemma_inner_parts_skip_slash(path: Seq<u8>, at: int)
    requires
        0 <= at < path.len(),
        path[at] == SLASH,
    ensures
        inner_parts(path.skip(at)) == inner_parts(path.skip(at + 1)),
{
    assert(path.skip(at).drop_first() =~= path.skip(at + 1));
}

/// Splits a path into its components.
pub fn components(path: &[u8]) -> (found: Vec<Component>)
    ensures
        parts_of(found@) == parts(path@),
{
    let mut found: Vec<Component> = Vec::new();
    let n = path.len();
    proof {
        lemma_name_len_bounds(path@);
    }
    if n > 0 && path[0] == SLASH {
        found.push(Component::RootDir);
    } else if n > 0 && path[0] == DOT && (n == 1 || path[1] == SLASH) {
        proof {
            lemma_name_len_is(path@, 1);
        }
        found.push(Component::CurDir);
    } else {
        proof {
            if name_len(path@) == 1 && path@[0] == DOT {
                assert(n == 1 || path@[1] == SLASH);
            }
        }
    }
    let ghost lead = parts_of(found@);
    let mut i: usize = 0;
    proof {
        assert(path@.skip(0) =~= path@);
        assert(lead + inner_parts(path@) =~= parts(path@)) by {
            if n > 0 && path@[0] == SLASH {
                assert(lead =~= seq![Part::RootDir]);
            } else if n > 0 && path@[0] == DOT && (n == 1 || path@[1] == SLASH) {
                assert(lead =~= seq![Part::CurDir]);
            } else {
                assert(lead =~= Seq::<Part>::empty());
            }
        }
    }
    while i < n
        invariant
            i <= n,
            n == path@.len(),
            parts_of(found@) + inner_parts(path@.skip(i as int)) == parts(path@),
        decreases n - i,
    {
        if path[i] == SLASH {
            proof {
                lemma_inner_parts_skip_slash(path@, i as int);
            }
            i += 1;
            continue ;
        }
        let start = i;
        let ghost rest = path@.skip(start as int);
        while i < n && path[i] != SLASH
            invariant
                start <= i <= n,
                n == path@.len(),
                forall|k: int| start <= k < i ==> path@[k] != SLASH,
            decreases n - i,
        {
            i += 1;
        }
        proof {
            assert forall|k: int| 0 <= k < i - start implies rest[k] != SLASH by {
                assert(rest[k] == path@[start + k]);
            }
            lemma_name_len_is(rest, i - start);
            assert(rest.take(i - start) =~= path@.subrange(start as int, i as int));
            assert(rest.skip(i - start) =~= path@.skip(i as int));
        }
        let name = vstd::slice::slice_subrange(path, start, i);
        let ghost before = parts_of(found@);
        if name.len() == 1 && name[0] == DOT {
            assert(name@ =~= seq![DOT]);
        } else if name.len() == 2 && name[0] == DOT && name[1] == DOT {
            assert(name@ =~= seq![DOT, DOT]);
            found.push(Component::ParentDir);
            proof {
                assert(parts_of(found@) =~= before + seq![Part::ParentDir]);
            }
        } else {
            proof {
                assert(name@ != seq![DOT]) by {
                    if name@ == seq![DOT] {
                        assert(name@.len() == 1 && name@[0] == DOT);
                    }
                }
                assert(name@ != seq![DOT, DOT]) by {
                    if name@ == seq![DOT, DOT] {
                        assert(name@.len() == 2 && name@[0] == DOT && name@[1] == DOT);
                    }
                }
            }
            found.push(Component::Normal(vstd::slice::slice_to_vec(name)));
            proof {
                assert(parts_of(found@) =~= before + seq![Part::Normal(name@)]);
            }
        }
        proof {
            assert(parts_of(found@) + inner_parts(path@.skip(i as int)) =~= before + inner_parts(
                rest,
            ));
        }
    }
    proof {
        assert(inner_parts(path@.skip(n as int)) =~= Seq::<Part>::empty());
        assert(parts_of(found@) =~= parts_of(found@) + Seq::<Part>::empty());
    }
    found
}

/// The path of `name` in the directory `dir`.
pub open spec fn join_name(dir: Seq<u8>, name: Seq<u8>) -> Seq<u8> {
    if dir.len() > 0 && dir.last() != SLASH {
        dir + seq![SLASH] + name
    } else {
        dir + name
    }
}

/// Goes on from the directory `dir` to `name` in it.
pub fn join(dir: &mut Vec<u8>, name: &[u8])
    ensures
        final(dir)@ == join_name(old(dir)@, name@),
{
    let len = dir.len();
    if len > 0 && dir[len - 1] != SLASH {
        dir.push(SLASH);
    }
    dir.extend_from_slice(name);
    proof {
        assert(dir@ =~= join_name(old(dir)@, name@));
    }
}

/// The path `path` lies in the directory `base`, or is `base` itself:
/// its components start with those of `base`.
pub open spec fn path_within(path: Seq<u8>, base: Seq<u8>) -> bool {
    parts(base).len() <= parts(path).len() && parts(path).take(parts(base).len() as int) == parts(
        base,
    )
}

/// Two paths with the same components.
pub open spec fn same_path(a: Seq<u8>, b: Seq<u8>) -> bool {
    parts(a) == parts(b)
}

fn same_component(a: &Component, b: &Component) -> (same: bool)
    ensures
        same == (a@ == b@),
{
    match (a, b) {
        (Component::RootDir, Component::RootDir) => true,
        (Component::CurDir, Component::CurDir) => true,
        (Component::ParentDir, Component::ParentDir) => true,
        (Component::Normal(x), Component::Normal(y)) => same_bytes(x.as_slice(), y.as_slice()),
        _ => false,
    }
}

/// Whether `path` lies in the directory `base`, or is `base` itself.
pub fn starts_with_path(path: &[u8], base: &[u8]) -> (within: bool)
    ensures
        within == path_within(path@, base@),
{
    let whole = components(path);
    let lead = components(base);
    if lead.len() > whole.len() {
        return false;
    }
    let mut i: usize = 0;
    while i < lead.len()
        invariant
            i <= lead@.len() <= whole@.len(),
            parts_of(whole@) == parts(path@),
            parts_of(lead@) == parts(base@),
            forall|k: int| 0 <= k < i ==> parts(path@)[k] == parts(base@)[k],
        decreases lead@.len() - i,
    {
        assert(parts(path@)[i as int] == whole@[i as int]@);
        assert(parts(base@)[i as int] == lead@[i as int]@);
        if !same_component(&whole[i], &lead[i]) {
            assert(parts(path@).take(parts(base@).len() as int)[i as int] != parts(base@)[i as int]);
            return false;
        }
        i += 1;
    }
    assert(parts(path@).take(parts(base@).len() as int) =~= parts(base@));
    true
}

/// Whether two paths have the same components.
pub fn paths_equal(a: &[u8], b: &[u8]) -> (same: bool)
    ensures
        same == same_path(a@, b@),
{
    let left = components(a);
    let right = components(b);
    if left.len() != right.len() {
        assert(parts(a@).len() == left@.len() && parts(b@).len() == right@.len());
        return false;
    }
    let mut i: usize = 0;
    while i < left.len()
        invariant
            i <= left@.len(),
            left@.len() == right@.len(),
            parts_of(left@) == parts(a@),
            parts_of(right@) == parts(b@),
            forall|k: int| 0 <= k < i ==> parts(a@)[k] == parts(b@)[k],
        decreases left@.len() - i,
    {
        assert(parts(a@)[i as int] == left@[i as int]@);
        assert(parts(b@)[i as int] == right@[i as int]@);
        if !same_component(&left[i], &right[i]) {
            assert(parts(a@)[i as int] != parts(b@)[i as int]);
            return false;
        }
        i += 1;
    }
    assert(parts(a@) =~= parts(b@));
    true
}

} // verus!
