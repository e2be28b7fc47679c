//! Rewriting the placeholders that bottles carry in place of the paths of
//! the machine they were built on.

use vstd::prelude::*;
use vstd::utf8::{decode_utf8, encode_utf8, encode_utf8_decode_utf8, valid_utf8};
use crate::error::{Error, Failure};
use crate::macho::{patch, patched, Relinked};
use crate::magic::{classify, detect, leading_word, Magic};
use crate::text::{is_prefix, occurs_at, starts_with};

verus! {

/// The placeholder for the installation prefix, `@@HOMEBREW_PREFIX@@`, in
/// ASCII.
pub const HOMEBREW_PREFIX_PLACEHOLDER: [u8; 19] = [
    0x40,
    0x40,
    0x48,
    0x4f,
    0x4d,
    0x45,
    0x42,
    0x52,
    0x45,
    0x57,
    0x5f,
    0x50,
    0x52,
    0x45,
    0x46,
    0x49,
    0x58,
    0x40,
    0x40,
];

/// The placeholder for the bottles directory, `@@HOMEBREW_CELLAR@@`, in
/// ASCII.
pub const HOMEBREW_CELLAR_PLACEHOLDER: [u8; 19] = [
    0x40,
    0x40,
    0x48,
    0x4f,
    0x4d,
    0x45,
    0x42,
    0x52,
    0x45,
    0x57,
    0x5f,
    0x43,
    0x45,
    0x4c,
    0x4c,
    0x41,
    0x52,
    0x40,
    0x40,
];

/// What both placeholders begin with, `@@HOMEBREW_`, in ASCII.
pub const PLACEHOLDER_PREFIX: [u8; 11] = [
    0x40,
    0x40,
    0x48,
    0x4f,
    0x4d,
    0x45,
    0x42,
    0x52,
    0x45,
    0x57,
    0x5f,
];

/// The first occurrence of `needle` in `haystack`, by `memchr::memmem::find`:
/// the least offset at which the needle stands, or `None` if it stands
/// nowhere.
pub assume_specification[ memchr::memmem::find ](haystack: &[u8], needle: &[u8]) -> (found: Option<
    usize,
>)
    ensures
        match found {
            Some(at) => occurs_at(haystack@, at as int, needle@) && forall|i: int|
                0 <= i < at ==> !occurs_at(haystack@, i, needle@),
            None => forall|i: int| !occurs_at(haystack@, i, needle@),
        },
;

/// The cellar placeholder stands at the start of `rest`.
#[verifier::opaque]
pub open spec fn at_cellar(rest: Seq<u8>) -> bool {
    is_prefix(HOMEBREW_CELLAR_PLACEHOLDER@, rest)
}

/// The prefix placeholder stands at the start of `rest`.
#[verifier::opaque]
pub open spec fn at_prefix(rest: Seq<u8>) -> bool {
    is_prefix(HOMEBREW_PREFIX_PLACEHOLDER@, rest)
}

/// The contents with each placeholder, from the left, replaced: the cellar
/// placeholder by `cellar`, the prefix placeholder by `prefix`.
pub open spec fn rewritten(contents: Seq<u8>, prefix: Seq<u8>, cellar: Seq<u8>) -> Seq<u8>
    decreases contents.len(),
    via rewritten_decreases
{
    if contents.len() == 0 {
        Seq::empty()
    } else if at_cellar(contents) {
        cellar + rewritten(contents.skip(19), prefix, cellar)
    } else if at_prefix(contents) {
        prefix + rewritten(contents.skip(19), prefix, cellar)
    } else {
        seq![contents[0]] + rewritten(contents.drop_first(), prefix, cellar)
    }
}

#[via_fn]
proof fn rewritten_decreases(contents: Seq<u8>, prefix: Seq<u8>, cellar: Seq<u8>) {
    reveal(at_cellar);
    reveal(at_prefix);
}

/// A placeholder stands somewhere in the contents.
pub open spec fn mentions_placeholder(contents: Seq<u8>) -> bool {
    exists|at: int|
        0 <= at <= contents.len() && (at_cellar(#[trigger] contents.skip(at)) || at_prefix(
            contents.skip(at),
        ))
}

/// Where no placeholder starts, the contents stay as they are.
proof fn lemma_rewritten_plain(contents: Seq<u8>, prefix: Seq<u8>, cellar: Seq<u8>, from: int, to: int)
    requires
        0 <= from <= to <= contents.len(),
        forall|j: int|
            from <= j < to ==> !at_cellar(#[trigger] contents.skip(j)) && !at_prefix(
                contents.skip(j),
            ),
    ensures
        rewritten(contents.skip(from), prefix, cellar) == contents.subrange(from, to) + rewritten(
            contents.skip(to),
            prefix,
            cellar,
        ),
    decreases to - from,
{
    if from < to {
        let rest = contents.skip(from);
        assert(!at_cellar(rest) && !at_prefix(rest));
        assert(rest.drop_first() =~= contents.skip(from + 1));
        lemma_rewritten_plain(contents, prefix, cellar, from + 1, to);
        assert(contents.subrange(from, to) =~= seq![contents[from]] + contents.subrange(
            from + 1,
            to,
        ));
        assert(rest[0] == contents[from]);
    } else {
        assert(contents.subrange(from, to) =~= Seq::<u8>::empty());
    }
}

/// Contents that hold no placeholder are left as they are.
pub proof fn lemma_rewritten_without_placeholders(
    contents: Seq<u8>,
    prefix: Seq<u8>,
    cellar: Seq<u8>,
)
    requires
        !mentions_placeholder(contents),
    ensures
        rewritten(contents, prefix, cellar) == contents,
{
    lemma_rewritten_plain(contents, prefix, cellar, 0, contents.len() as int);
    assert(contents.skip(0) =~= contents);
    assert(contents.subrange(0, contents.len() as int) =~= contents);
    assert(rewritten(contents.skip(contents.len() as int), prefix, cellar) =~= Seq::<u8>::empty());
    assert(contents + Seq::<u8>::empty() =~= contents);
}

/// A placeholder starts only where what both begin with starts.
proof fn lemma_placeholder_has_mark(contents: Seq<u8>, at: int)
    requires
        0 <= at <= contents.len(),
        at_cellar(contents.skip(at)) || at_prefix(contents.skip(at)),
    ensures
        occurs_at(contents, at, PLACEHOLDER_PREFIX@),
{
    reveal(at_cellar);
    reveal(at_prefix);
    let rest = contents.skip(at);
    let mark = PLACEHOLDER_PREFIX@;
    let token = if at_cellar(rest) {
        HOMEBREW_CELLAR_PLACEHOLDER@
    } else {
        HOMEBREW_PREFIX_PLACEHOLDER@
    };
    assert(rest.subrange(0, 19) == token);
    assert forall|i: int| 0 <= i < 11 implies contents.subrange(at, at + 11)[i] == mark[i] by {
        assert(rest.subrange(0, 19)[i] == token[i]);
        assert(token[i] == mark[i]);
    }
    assert(contents.subrange(at, at + 11) =~= mark);
}

/// Where what both placeholders begin with does not start, no placeholder
/// starts.
proof fn lemma_no_mark_no_placeholder(contents: Seq<u8>, from: int, to: int)
    requires
        0 <= from <= to <= contents.len(),
        forall|i: int| 0 <= i < to - from ==> !occurs_at(contents.skip(from), i, PLACEHOLDER_PREFIX@),
    ensures
        forall|j: int|
            from <= j < to ==> !at_cellar(#[trigger] contents.skip(j)) && !at_prefix(
                contents.skip(j),
            ),
{
    let rest = contents.skip(from);
    assert forall|j: int| from <= j < to implies !at_cellar(#[trigger] contents.skip(j))
        && !at_prefix(contents.skip(j)) by {
        if at_cellar(contents.skip(j)) || at_prefix(contents.skip(j)) {
            lemma_placeholder_has_mark(contents, j);
            assert(rest.subrange(j - from, j - from + 11) =~= contents.subrange(j, j + 11));
            assert(occurs_at(rest, j - from, PLACEHOLDER_PREFIX@));
        }
    }
}

/// Past the end of the contents, and in their last few bytes, no
/// placeholder starts.
proof fn lemma_no_placeholder_at_end(contents: Seq<u8>, j: int)
    requires
        0 <= j <= contents.len(),
        j + 11 > contents.len(),
    ensures
        !at_cellar(contents.skip(j)) && !at_prefix(contents.skip(j)),
{
    reveal(at_cellar);
    reveal(at_prefix);
}

/// What the rewriting makes of the contents from a placeholder on.
proof fn lemma_rewritten_placeholder(contents: Seq<u8>, prefix: Seq<u8>, cellar: Seq<u8>, at: int)
    requires
        0 <= at <= contents.len(),
        at_cellar(contents.skip(at)) || at_prefix(contents.skip(at)),
    ensures
        at + 19 <= contents.len(),
        rewritten(contents.skip(at), prefix, cellar) == (if at_cellar(contents.skip(at)) {
            cellar
        } else {
            prefix
        }) + rewritten(contents.skip(at + 19), prefix, cellar),
{
    reveal(at_cellar);
    reveal(at_prefix);
    assert(contents.skip(at).skip(19) =~= contents.skip(at + 19));
}

/// Looks for the next placeholder from `scan` on: says where it starts and
/// what is to stand in its place, or that there is none.
fn next_placeholder<'a>(contents: &[u8], scan: usize, prefix: &'a [u8], cellar: &'a [u8]) -> (found:
    Option<(usize, &'a [u8])>)
    requires
        scan <= contents@.len(),
    ensures
        match found {
            Some((at, replacement)) => {
                &&& scan <= at
                &&& at + 19 <= contents@.len()
                &&& forall|j: int|
                    scan <= j < at ==> !at_cellar(#[trigger] contents@.skip(j)) && !at_prefix(
                        contents@.skip(j),
                    )
                &&& at_cellar(contents@.skip(at as int)) || at_prefix(contents@.skip(at as int))
                &&& replacement@ == (if at_cellar(contents@.skip(at as int)) {
                    cellar@
                } else {
                    prefix@
                })
            },
            None => forall|j: int|
                scan <= j <= contents@.len() ==> !at_cellar(#[trigger] contents@.skip(j))
                    && !at_prefix(contents@.skip(j)),
        },
{
    let n = contents.len();
    let mut from = scan;
    loop
        invariant
            scan <= from <= n,
            n == contents@.len(),
            forall|j: int|
                scan <= j < from ==> !at_cellar(#[trigger] contents@.skip(j)) && !at_prefix(
                    contents@.skip(j),
                ),
        decreases n - from,
    {
        let rest = vstd::slice::slice_subrange(contents, from, n);
        assert(rest@ =~= contents@.skip(from as int));
        let at = match memchr::memmem::find(rest, &PLACEHOLDER_PREFIX) {
            Some(offset) => from + offset,
            None => {
                proof {
                    lemma_no_mark_no_placeholder(contents@, from as int, n as int);
                    lemma_no_placeholder_at_end(contents@, n as int);
                }
                return None;
            },
        };
        proof {
            lemma_no_mark_no_placeholder(contents@, from as int, at as int);
        }
        let tail = vstd::slice::slice_subrange(contents, at, n);
        assert(tail@ =~= contents@.skip(at as int));
        proof {
            reveal(at_cellar);
            reveal(at_prefix);
        }
        if starts_with(tail, &HOMEBREW_CELLAR_PLACEHOLDER) {
            return Some((at, cellar));
        }
        if starts_with(tail, &HOMEBREW_PREFIX_PLACEHOLDER) {
            return Some((at, prefix));
        }
        from = at + 1;
    }
}

/// Replaces each placeholder in the contents of a file: the cellar
/// placeholder by `cellar`, the prefix placeholder by `prefix`.
///
/// Returns `None` when the contents hold no placeholder, so that they can
/// be written as they are.
pub fn rewrite_placeholders(contents: &[u8], prefix: &[u8], cellar: &[u8]) -> (patched: Option<
    Vec<u8>,
>)
    ensures
        match patched {
            Some(output) => mentions_placeholder(contents@) && output@ == rewritten(
                contents@,
                prefix@,
                cellar@,
            ),
            None => !mentions_placeholder(contents@),
        },
{
    let n = contents.len();
    let mut output: Vec<u8> = Vec::new();
    let mut copied: usize = 0;
    let mut found = false;
    proof {
        assert(contents@.skip(0) =~= contents@);
        assert(output@ + rewritten(contents@, prefix@, cellar@) =~= rewritten(
            contents@,
            prefix@,
            cellar@,
        ));
    }
    loop
        invariant
            copied <= n,
            n == contents@.len(),
            output@ + rewritten(contents@.skip(copied as int), prefix@, cellar@) == rewritten(
                contents@,
                prefix@,
                cellar@,
            ),
            found ==> mentions_placeholder(contents@),
            !found ==> copied == 0,
        ensures
            copied <= n,
            n == contents@.len(),
            output@ + rewritten(contents@.skip(copied as int), prefix@, cellar@) == rewritten(
                contents@,
                prefix@,
                cellar@,
            ),
            forall|j: int|
                copied <= j <= n ==> !at_cellar(#[trigger] contents@.skip(j)) && !at_prefix(
                    contents@.skip(j),
                ),
            found ==> mentions_placeholder(contents@),
            !found ==> copied == 0,
        decreases n - copied,
    {
        let (at, replacement) = match next_placeholder(contents, copied, prefix, cellar) {
            Some(next) => next,
            None => {
                break ;
            },
        };
        let ghost before = output@;
        let ghost plain = contents@.subrange(copied as int, at as int);
        let ghost after = rewritten(contents@.skip(at + 19), prefix@, cellar@);
        proof {
            lemma_rewritten_plain(contents@, prefix@, cellar@, copied as int, at as int);
            lemma_rewritten_placeholder(contents@, prefix@, cellar@, at as int);
        }
        output.extend_from_slice(vstd::slice::slice_subrange(contents, copied, at));
        output.extend_from_slice(replacement);
        proof {
            assert(output@ =~= before + plain + replacement@);
            assert(output@ + after =~= before + (plain + (replacement@ + after)));
        }
        copied = at + 19;
        found = true;
    }
    if !found {
        return None;
    }
    let ghost before = output@;
    proof {
        lemma_rewritten_plain(contents@, prefix@, cellar@, copied as int, n as int);
        assert(rewritten(contents@.skip(n as int), prefix@, cellar@) =~= Seq::<u8>::empty());
    }
    output.extend_from_slice(vstd::slice::slice_subrange(contents, copied, n));
    proof {
        assert(output@ =~= before + (contents@.subrange(copied as int, n as int) + Seq::<
            u8,
        >::empty()));
    }
    Some(output)
}


/// The kind of system that bottles are installed on.
#[derive(Clone, Copy, Debug, PartialEq, Eq, Structural)]
pub enum Platform {
    MacOs,
    Linux,
    Other,
}

/// What is to be written for a file of a bottle.
#[derive(Debug, PartialEq, Eq)]
pub enum Patched {
    /// The contents as they are.
    Verbatim,
    /// The contents with their placeholders replaced.
    Rewritten(Vec<u8>),
    /// A Mach-O image with its library names changed, which has to be
    /// signed again once it is written.
    Relinked(Vec<u8>),
}

/// The format of a file, as far as its first bytes tell.
pub open spec fn class_of(contents: Seq<u8>) -> Magic {
    if contents.len() >= 4 {
        classify(leading_word(contents))
    } else {
        Magic::Unknown
    }
}

/// Reads bytes as text, by `std::str::from_utf8`. There is a text just
/// where the bytes are valid UTF-8, and the bytes are its encoding.
#[verifier::external_body]
fn as_text(bytes: &[u8]) -> (text: Option<&str>)
    ensures
        text is Some <==> valid_utf8(bytes@),
        text matches Some(read) ==> encode_utf8(read@) == bytes@,
{
    std::str::from_utf8(bytes).ok()
}

/// What is to be written for a Mach-O image on macOS: `None` where it
/// fails, else the changed image, if there was anything to change. The
/// library names are texts, so the two directories must be valid UTF-8.
pub open spec fn relinking(contents: Seq<u8>, prefix: Seq<u8>, cellar: Seq<u8>) -> Option<
    Option<Seq<u8>>,
> {
    if valid_utf8(prefix) && valid_utf8(cellar) {
        patched(contents, decode_utf8(prefix), decode_utf8(cellar))
    } else {
        None
    }
}

/// Works out what is to be written for a file of a bottle. The two
/// directories are given as the bytes of their paths.
///
/// On macOS a Mach-O image has its library names changed, which fails as
/// `PatchFailure` where a directory is not valid UTF-8. On Linux an ELF
/// image is refused as `PatchFailure`, for want of a way to change it. Any
/// other file has its placeholders replaced, byte for byte.
pub fn patch_and_write(contents: &[u8], platform: Platform, prefix: &[u8], cellar: &[u8]) -> (outcome:
    Result<Patched, Error>)
    ensures
        outcome matches Err(e) ==> e@ == Failure::PatchFailure,
        if class_of(contents@) == Magic::MachO && platform == Platform::MacOs {
            match relinking(contents@, prefix@, cellar@) {
                None => outcome is Err,
                Some(None) => outcome == Ok::<Patched, Error>(Patched::Verbatim),
                Some(Some(bytes)) => outcome matches Ok(Patched::Relinked(image)) && image@
                    == bytes,
            }
        } else if class_of(contents@) == Magic::Elf && platform == Platform::Linux {
            outcome is Err
        } else if mentions_placeholder(contents@) {
            outcome matches Ok(Patched::Rewritten(output)) && output@ == rewritten(
                contents@,
                prefix@,
                cellar@,
            )
        } else {
            outcome == Ok::<Patched, Error>(Patched::Verbatim)
        },
{
    let class = match detect(contents) {
        Some(class) => class,
        None => Magic::Unknown,
    };
    if class == Magic::MachO && platform == Platform::MacOs {
        let (prefix, cellar) = match (as_text(prefix), as_text(cellar)) {
            (Some(prefix), Some(cellar)) => (prefix, cellar),
            _ => {
                return Err(Error::PatchFailure);
            },
        };
        proof {
            encode_utf8_decode_utf8(prefix@);
            encode_utf8_decode_utf8(cellar@);
        }
        return match patch(contents, prefix, cellar) {
            Ok(Relinked::Unchanged) => Ok(Patched::Verbatim),
            Ok(Relinked::Changed(image)) => Ok(Patched::Relinked(image)),
            Err(e) => Err(e),
        };
    }
    if class == Magic::Elf && platform == Platform::Linux {
        return Err(Error::PatchFailure);
    }
    match rewrite_placeholders(contents, prefix, cellar) {
        Some(output) => Ok(Patched::Rewritten(output)),
        None => Ok(Patched::Verbatim),
    }
}

} // verus!
