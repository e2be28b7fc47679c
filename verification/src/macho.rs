//! Rewriting the library references of a Mach-O image.
//!
//! A bottle's binaries name the libraries they load by paths that begin
//! with a placeholder. Each such name is changed to begin with the path
//! that the placeholder stands for.

use vstd::prelude::*;
use crate::error::{Error, Failure};
use crate::image::{
    fit_to_change, fit_to_read, image_survey, read_commands_len, read_word, survey, Surveyed,
    COMMAND_OVERHEAD, WORD_MAX,
};
use crate::magic::leading_word;
use crate::text::{replace_all, replaced, same_str, str_starts_with, text_starts_with};

verus! {

/// A Mach-O image as `arwen` holds it while it is changed.
#[verifier::external_type_specification]
#[verifier::external_body]
pub struct ExMachoContainer<'a>(arwen::macho::MachoContainer<'a>);

/// The names of the libraries that a Mach-O image refers to, as `goblin`
/// reads them, or `None` where it refuses the image. The first name is the
/// image's own.
pub uninterp spec fn install_names(image: Seq<u8>) -> Option<Seq<Seq<char>>>;

/// The image that a container was read from. `arwen` keeps what it read of
/// it, and goes by that however often the container is changed.
pub uninterp spec fn container_origin(container: arwen::macho::MachoContainer) -> Seq<u8>;

/// The bytes that a container works on: the image as changed so far.
pub uninterp spec fn container_image(container: arwen::macho::MachoContainer) -> Seq<u8>;

/// What `arwen` makes of the bytes `held`, which it works on, when the
/// library name `from` is to become `to` in a container that was read from
/// `origin`; `None` where it refuses.
pub uninterp spec fn rewritten_image(
    origin: Seq<u8>,
    held: Seq<u8>,
    from: Seq<char>,
    to: Seq<char>,
) -> Option<Seq<u8>>;

/// The texts of a list of strings.
pub open spec fn texts(names: Seq<String>) -> Seq<Seq<char>> {
    Seq::new(names.len(), |i: int| names[i]@)
}

/// Reads the names of the libraries that an image refers to, by
/// `goblin::mach::MachO::parse` at offset zero and its field `libs`.
///
/// Where the image is read there is at least one name, the image's own.
///
/// `goblin` works the program's start out from the first segment and the
/// start that the load commands tell, without a check; an image is to be
/// handed in only if that cannot go wrong, which `fit_to_read` sees to.
#[verifier::external_body]
fn library_names(image: &[u8]) -> (names: Option<Vec<String>>)
    requires
        fit_to_read(image@),
    ensures
        match names {
            Some(found) => install_names(image@) == Some(texts(found@)) && found@.len() > 0,
            None => install_names(image@) is None,
        },
{
    match goblin::mach::MachO::parse(image, 0) {
        Ok(macho) => Some(macho.libs.iter().map(|lib| lib.to_string()).collect()),
        Err(_) => None,
    }
}

/// Reads an image into a container, by `arwen::macho::MachoContainer::parse`.
///
/// An image of a single architecture is read by the call by which `goblin`
/// reads its library names, so that the one succeeds where the other
/// does. The container then works on the image as it is.
#[verifier::external_body]
fn read_container<'a>(image: &'a [u8]) -> (container: Option<arwen::macho::MachoContainer<'a>>)
    requires
        fit_to_read(image@),
    ensures
        container is Some <==> install_names(image@) is Some,
        container matches Some(held) ==> container_origin(held) == image@ && container_image(held)
            == image@,
{
    arwen::macho::MachoContainer::parse(image).ok()
}

/// Changes one library name of the image in a container, by
/// `arwen::macho::MachoContainer::change_install_name`, and says whether
/// that was done. What the container works on is never shorter after than
/// before.
///
/// `arwen` looks the old name up among the names that it read from the
/// origin, and breaks down where it finds it in the first place, which is
/// the image's own name. It takes the load command of the name out and
/// puts one with the new name in, going by the sizes that it read from
/// the origin, and breaks down where these do not fit the bytes that it
/// works on. A container is to be handed in only if neither can happen,
/// which `fit_to_change` and the test of the first name see to.
#[verifier::external_body]
fn change_install_name(container: &mut arwen::macho::MachoContainer, from: &str, to: &str) -> (done:
    bool)
    requires
        fit_to_change(
            container_origin(*old(container)),
            container_image(*old(container)).len() as int,
            to@,
        ),
        install_names(container_origin(*old(container))) matches Some(names) && names.len() > 0
            && names[0] != from@,
    ensures
        container_origin(*final(container)) == container_origin(*old(container)),
        container_image(*final(container)).len() >= container_image(*old(container)).len(),
        done <==> rewritten_image(
            container_origin(*old(container)),
            container_image(*old(container)),
            from@,
            to@,
        ) is Some,
        done ==> Some(container_image(*final(container))) == rewritten_image(
            container_origin(*old(container)),
            container_image(*old(container)),
            from@,
            to@,
        ),
{
    container.change_install_name(from, to).is_ok()
}

/// How many bytes a container works on, from the field `data` of the
/// image that it holds.
#[verifier::external_body]
fn held_len(container: &arwen::macho::MachoContainer) -> (len: usize)
    ensures
        len == container_image(*container).len(),
{
    match &container.inner {
        arwen::macho::MachoType::SingleArch(single) => single.data.len(),
        arwen::macho::MachoType::Fat(fat) => fat.data.len(),
    }
}

/// The bytes that a container works on, from the field `data` of the image
/// that it holds.
#[verifier::external_body]
fn into_image(container: arwen::macho::MachoContainer) -> (image: Vec<u8>)
    ensures
        image@ == container_image(container),
{
    match container.inner {
        arwen::macho::MachoType::SingleArch(single) => single.data,
        arwen::macho::MachoType::Fat(fat) => fat.data,
    }
}

/// A library name that is to be changed, and the name to change it to.
#[derive(Debug, PartialEq, Eq)]
pub struct Rename {
    pub old: String,
    pub new: String,
}

/// What a `Rename` stands for in specifications.
pub struct Renaming {
    pub old: Seq<char>,
    pub new: Seq<char>,
}

impl View for Rename {
    type V = Renaming;

    open spec fn view(&self) -> Renaming {
        Renaming { old: self.old@, new: self.new@ }
    }
}

/// The views of a list of renames.
pub open spec fn renamings(renames: Seq<Rename>) -> Seq<Renaming> {
    Seq::new(renames.len(), |i: int| renames[i]@)
}

/// The text of the placeholder for the installation prefix.
pub open spec fn prefix_placeholder() -> Seq<char> {
    "@@HOMEBREW_PREFIX@@"@
}

/// The text of the placeholder for the bottles directory.
pub open spec fn cellar_placeholder() -> Seq<char> {
    "@@HOMEBREW_CELLAR@@"@
}

/// What a library name is to be changed to, if it is to be changed: a name
/// that begins with a placeholder has that placeholder replaced
/// throughout.
pub open spec fn renamed(name: Seq<char>, prefix: Seq<char>, cellar: Seq<char>) -> Option<
    Seq<char>,
> {
    if text_starts_with(name, prefix_placeholder()) {
        Some(replaced(name, prefix_placeholder(), prefix))
    } else if text_starts_with(name, cellar_placeholder()) {
        Some(replaced(name, cellar_placeholder(), cellar))
    } else {
        None
    }
}

/// The changes to make among the leading `n` library names. The first
/// name, the image's own, is never changed.
pub open spec fn changes(names: Seq<Seq<char>>, prefix: Seq<char>, cellar: Seq<char>, n: nat) -> Seq<
    Renaming,
>
    decreases n,
{
    if n <= 1 {
        Seq::empty()
    } else {
        match renamed(names[n - 1], prefix, cellar) {
            Some(new) => changes(names, prefix, cellar, (n - 1) as nat).push(
                Renaming { old: names[n - 1], new },
            ),
            None => changes(names, prefix, cellar, (n - 1) as nat),
        }
    }
}

/// Works out which library names of an image are to be changed, and to
/// what.
///
/// The first name is the image's own and is left alone. Of the others,
/// each that begins with a placeholder is changed: the placeholder gives
/// way to `prefix` or to `cellar`, wherever it stands in the name.
pub fn replacements(names: &Vec<String>, prefix: &str, cellar: &str) -> (renames: Vec<Rename>)
    ensures
        renamings(renames@) == changes(texts(names@), prefix@, cellar@, names@.len()),
{
    let mut renames: Vec<Rename> = Vec::new();
    let mut i: usize = 1;
    proof {
        reveal_strlit("@@HOMEBREW_PREFIX@@");
        reveal_strlit("@@HOMEBREW_CELLAR@@");
        assert(renamings(renames@) =~= Seq::<Renaming>::empty());
    }
    while i < names.len()
        invariant
            1 <= i,
            names@.len() >= 1 ==> i <= names@.len(),
            "@@HOMEBREW_PREFIX@@"@.len() > 0,
            "@@HOMEBREW_CELLAR@@"@.len() > 0,
            i <= names@.len() ==> renamings(renames@) == changes(
                texts(names@),
                prefix@,
                cellar@,
                i as nat,
            ),
            i > names@.len() ==> renamings(renames@) == Seq::<Renaming>::empty(),
        decreases names@.len() - i,
    {
        let name = names[i].as_str();
        let ghost before = renamings(renames@);
        assert(texts(names@)[i as int] == name@);
        if str_starts_with(name, "@@HOMEBREW_PREFIX@@") {
            renames.push(
                Rename { old: names[i].clone(), new: replace_all(name, "@@HOMEBREW_PREFIX@@", prefix) },
            );
        } else if str_starts_with(name, "@@HOMEBREW_CELLAR@@") {
            renames.push(
                Rename { old: names[i].clone(), new: replace_all(name, "@@HOMEBREW_CELLAR@@", cellar) },
            );
        }
        proof {
            match renamed(name@, prefix@, cellar@) {
                Some(new) => {
                    assert(renamings(renames@) =~= before.push(Renaming { old: name@, new }));
                },
                None => {
                    assert(renamings(renames@) =~= before);
                },
            }
        }
        i += 1;
    }
    renames
}

/// What is to be done with a Mach-O image: with nothing to change it is
/// written as it is; else it is written as changed, and signed again.
#[derive(Debug, PartialEq, Eq)]
pub enum Relinked {
    Unchanged,
    Changed(Vec<u8>),
}

/// What the leading `n` changes, made one after the other, make of the
/// image `origin`, whose own name is `own`. `None` where one of them is not
/// made: where the name to change is the image's own, where the image is
/// not fit for the change, or where the change is refused.
pub open spec fn relinked(origin: Seq<u8>, own: Seq<char>, changes: Seq<Renaming>, n: nat) -> Option<
    Seq<u8>,
>
    decreases n,
{
    if n == 0 {
        Some(origin)
    } else {
        match relinked(origin, own, changes, (n - 1) as nat) {
            None => None,
            Some(held) => {
                let change = changes[n - 1];
                if change.old == own || !fit_to_change(origin, held.len() as int, change.new) {
                    None
                } else {
                    rewritten_image(origin, held, change.old, change.new)
                }
            },
        }
    }
}

/// What changing the library names of an image comes to: `None` where it
/// fails, else the changed image, if there was anything to change.
pub open spec fn patched(image: Seq<u8>, prefix: Seq<char>, cellar: Seq<char>) -> Option<
    Option<Seq<u8>>,
> {
    if !fit_to_read(image) {
        None
    } else {
        match install_names(image) {
            None => None,
            Some(names) => {
                let wanted = changes(names, prefix, cellar, names.len());
                if wanted.len() == 0 {
                    Some(None)
                } else {
                    match relinked(image, names[0], wanted, wanted.len()) {
                        Some(bytes) => Some(Some(bytes)),
                        None => None,
                    }
                }
            },
        }
    }
}

/// A change that is not made is not made up for by those that follow.
proof fn lemma_relinked_failure_stays(
    origin: Seq<u8>,
    own: Seq<char>,
    changes: Seq<Renaming>,
    n: nat,
    m: nat,
)
    requires
        n <= m,
        relinked(origin, own, changes, n) is None,
    ensures
        relinked(origin, own, changes, m) is None,
    decreases m,
{
    if n < m {
        lemma_relinked_failure_stays(origin, own, changes, n, (m - 1) as nat);
    }
}

/// Whether a change to the name `to` can be made in an image that was read
/// from `origin` and has come to be `held` bytes long.
fn can_change(origin: &[u8], found: Surveyed, held: usize, to: &str) -> (fit: bool)
    requires
        fit_to_read(origin@),
        image_survey(origin@) == Some(found@),
    ensures
        fit == fit_to_change(origin@, held as int, to@),
{
    let header: u64 = if is_wide(origin) {
        32
    } else {
        28
    };
    let commands = read_commands_len(origin) as u64;
    let name = to.as_bytes().len();
    if found.end as u64 != header + commands {
        return false;
    }
    if name as u64 > WORD_MAX || commands + name as u64 + COMMAND_OVERHEAD > WORD_MAX {
        return false;
    }
    header + commands + name as u64 + COMMAND_OVERHEAD <= held as u64
}

fn is_wide(image: &[u8]) -> (wide: bool)
    requires
        image@.len() >= 4,
    ensures
        wide == crate::image::wide(image@),
{
    let lead = read_word(image, 0, false).unwrap();
    assert(lead == leading_word(image@));
    lead == 0xFEEDFACF || lead == 0xCFFAEDFE
}

/// Changes the library names of a Mach-O image that begin with a
/// placeholder.
///
/// An image that is not fit to be read, or cannot be read, is refused as
/// `PatchFailure`. An image with no name to change is left as it is.
/// Otherwise the names are changed one by one, each in what the change
/// before has made of the image. That fails as `PatchFailure` where the
/// name to change is the image's own, where the image has no room for the
/// new name behind its load commands, or where the change is refused.
pub fn patch(image: &[u8], prefix: &str, cellar: &str) -> (outcome: Result<Relinked, Error>)
    ensures
        match patched(image@, prefix@, cellar@) {
            None => outcome matches Err(e) && e@ == Failure::PatchFailure,
            Some(None) => outcome == Ok::<Relinked, Error>(Relinked::Unchanged),
            Some(Some(bytes)) => outcome matches Ok(Relinked::Changed(changed)) && changed@
                == bytes,
        },
{
    let found = match survey(image) {
        Some(found) => found,
        None => {
            return Err(Error::PatchFailure);
        },
    };
    if found.has_main && !found.sound {
        return Err(Error::PatchFailure);
    }
    let names = match library_names(image) {
        Some(names) => names,
        None => {
            return Err(Error::PatchFailure);
        },
    };
    let renames = replacements(&names, prefix, cellar);
    assert(renamings(renames@).len() == renames@.len());
    if renames.len() == 0 {
        return Ok(Relinked::Unchanged);
    }
    let mut container = match read_container(image) {
        Some(container) => container,
        None => {
            return Err(Error::PatchFailure);
        },
    };
    let own = names[0].as_str();
    assert(texts(names@)[0] == own@);
    let ghost wanted = renamings(renames@);
    let ghost mut held = image@;
    let mut i: usize = 0;
    while i < renames.len()
        invariant
            i <= renames@.len(),
            fit_to_read(image@),
            image_survey(image@) == Some(found@),
            install_names(image@) == Some(texts(names@)),
            names@.len() > 0,
            own@ == texts(names@)[0],
            wanted == renamings(renames@),
            wanted == changes(texts(names@), prefix@, cellar@, names@.len()),
            wanted.len() > 0,
            container_origin(container) == image@,
            container_image(container) == held,
            relinked(image@, own@, wanted, i as nat) == Some(held),
        decreases renames@.len() - i,
    {
        let rename = &renames[i];
        assert(wanted[i as int] == rename@);
        proof {
            if relinked(image@, own@, wanted, (i + 1) as nat) is None {
                lemma_relinked_failure_stays(image@, own@, wanted, (i + 1) as nat, wanted.len());
            }
        }
        if same_str(rename.old.as_str(), own) {
            return Err(Error::PatchFailure);
        }
        if !can_change(image, found, held_len(&container), rename.new.as_str()) {
            return Err(Error::PatchFailure);
        }
        if !change_install_name(&mut container, rename.old.as_str(), rename.new.as_str()) {
            return Err(Error::PatchFailure);
        }
        proof {
            held = container_image(container);
        }
        i += 1;
    }
    Ok(Relinked::Changed(into_image(container)))
}

} // verus!
