//! The layout of a Mach-O image, as far as it has to be known before the
//! image is handed on: its header, and the table of its load commands.
//!
//! An image begins with a header of seven or eight words. The load
//! commands follow it, each beginning with a word for its kind and a word
//! for its size in bytes. The byte order of all words is told by the
//! image's first four bytes.

use vstd::prelude::*;
use vstd::utf8::encode_utf8;
use crate::magic::{classify, leading_word, Magic};

verus! {

/// The kind of a load command that describes a segment of a 32-bit image.
pub const LC_SEGMENT: u32 = 0x1;

/// The kind of a load command that describes a segment of a 64-bit image.
pub const LC_SEGMENT_64: u32 = 0x19;

/// The kind of the load command that tells where the program starts.
pub const LC_MAIN: u32 = 0x8000_0028;

/// An address or offset from here on is taken for unsound: half of what
/// 64 bits can hold.
pub const HALF_RANGE: u64 = 0x8000_0000_0000_0000;

/// The greatest number that a word can hold.
pub const WORD_MAX: u64 = 0xffff_ffff;

/// How much longer than its name a command that loads a library can be:
/// its fixed part, the end of the name, and what rounds the size up.
pub const COMMAND_OVERHEAD: u64 = 40;

/// The word of four bytes at offset `at`, in the given byte order.
pub open spec fn word_at(image: Seq<u8>, at: int, little: bool) -> int {
    if little {
        image[at] as int + image[at + 1] as int * 0x100 + image[at + 2] as int * 0x1_0000 + image[at
            + 3] as int * 0x100_0000
    } else {
        image[at] as int * 0x100_0000 + image[at + 1] as int * 0x1_0000 + image[at + 2] as int
            * 0x100 + image[at + 3] as int
    }
}

/// The number of eight bytes at offset `at`, in the given byte order.
pub open spec fn long_at(image: Seq<u8>, at: int, little: bool) -> int {
    if little {
        word_at(image, at, little) + word_at(image, at + 4, little) * 0x1_0000_0000
    } else {
        word_at(image, at, little) * 0x1_0000_0000 + word_at(image, at + 4, little)
    }
}

/// The image is long enough for a header and begins like a Mach-O image of
/// a single architecture.
pub open spec fn is_mach_o(image: Seq<u8>) -> bool {
    image.len() >= 32 && classify(leading_word(image)) == Magic::MachO
}

/// The words of the image have their low byte first.
pub open spec fn little_endian(image: Seq<u8>) -> bool {
    leading_word(image) == 0xCEFAEDFE || leading_word(image) == 0xCFFAEDFE
}

/// The image is a 64-bit image.
pub open spec fn wide(image: Seq<u8>) -> bool {
    leading_word(image) == 0xFEEDFACF || leading_word(image) == 0xCFFAEDFE
}

/// The length of the header: eight words in a 64-bit image, else seven.
pub open spec fn header_len(image: Seq<u8>) -> int {
    if wide(image) {
        32
    } else {
        28
    }
}

/// The number of load commands that the header announces.
pub open spec fn command_count(image: Seq<u8>) -> int {
    word_at(image, 16, little_endian(image))
}

/// The length of all load commands together that the header announces.
pub open spec fn commands_len(image: Seq<u8>) -> int {
    word_at(image, 20, little_endian(image))
}

/// What a walk along load commands has found: where it ended, whether a
/// command tells where the program starts, and whether every segment and
/// every start that it passed is sound.
pub struct Survey {
    pub end: int,
    pub has_main: bool,
    pub sound: bool,
}

/// What is found of the command of the given kind at offset `at`: whether
/// it tells where the program starts, and whether it is sound. `None`
/// where the image ends before the command's fixed part does.
///
/// A segment is sound when it lies no later in the file than in memory,
/// and in the lower half of memory; a start is sound when it lies in the
/// lower half of the file.
pub open spec fn command_check(image: Seq<u8>, at: int, kind: int, little: bool) -> Option<
    (bool, bool),
> {
    if kind == LC_SEGMENT {
        if at + 56 > image.len() {
            None
        } else {
            Some((false, word_at(image, at + 32, little) <= word_at(image, at + 24, little)))
        }
    } else if kind == LC_SEGMENT_64 {
        if at + 72 > image.len() {
            None
        } else {
            Some(
                (
                    false,
                    long_at(image, at + 40, little) <= long_at(image, at + 24, little) && long_at(
                        image,
                        at + 24,
                        little,
                    ) < HALF_RANGE,
                ),
            )
        }
    } else if kind == LC_MAIN {
        if at + 24 > image.len() {
            None
        } else {
            Some((true, long_at(image, at + 8, little) < HALF_RANGE))
        }
    } else {
        Some((false, true))
    }
}

/// What is found of the load command at offset `at`: its size, whether it
/// tells where the program starts, and whether it is sound. `None` where
/// the command does not lie within the image, or is shorter than its two
/// leading words.
#[verifier::opaque]
pub open spec fn command_step(image: Seq<u8>, at: int, little: bool) -> Option<(int, bool, bool)> {
    if at + 8 > image.len() {
        None
    } else {
        let kind = word_at(image, at, little);
        let size = word_at(image, at + 4, little);
        if size < 8 || at + size > image.len() {
            None
        } else {
            match command_check(image, at, kind, little) {
                None => None,
                Some((main, sound)) => Some((size, main, sound)),
            }
        }
    }
}

/// What a walk along `left` load commands from offset `at` finds. `None`
/// where one of them is not found.
pub open spec fn command_survey(image: Seq<u8>, at: int, left: nat, little: bool) -> Option<Survey>
    decreases left,
{
    if left == 0 {
        Some(Survey { end: at, has_main: false, sound: true })
    } else {
        match command_step(image, at, little) {
            None => None,
            Some((size, main, sound)) => merged(
                main,
                sound,
                command_survey(image, at + size, (left - 1) as nat, little),
            ),
        }
    }
}

/// What a walk along all load commands of an image finds.
pub open spec fn image_survey(image: Seq<u8>) -> Option<Survey> {
    if is_mach_o(image) {
        command_survey(
            image,
            header_len(image),
            command_count(image) as nat,
            little_endian(image),
        )
    } else {
        None
    }
}

/// The image can be handed on to be read: its load commands lie within
/// it, and if one tells where the program starts, every segment and every
/// start is sound.
pub open spec fn fit_to_read(image: Seq<u8>) -> bool {
    image_survey(image) matches Some(found) && (found.has_main ==> found.sound)
}

/// The load commands fill just the length that the header announces.
pub open spec fn tight(image: Seq<u8>) -> bool {
    image_survey(image) matches Some(found) && found.end == header_len(image) + commands_len(
        image,
    )
}

/// A library name of the image `origin` can be changed to `to` in a copy
/// of the image that has come to be `held` bytes long: the load commands
/// are tight, and behind them stand as many bytes as the command with the
/// new name can take, which the header's count of bytes can take as well.
pub open spec fn fit_to_change(origin: Seq<u8>, held: int, to: Seq<char>) -> bool {
    &&& fit_to_read(origin)
    &&& tight(origin)
    &&& header_len(origin) + commands_len(origin) + encode_utf8(to).len() + COMMAND_OVERHEAD
        <= held
    &&& commands_len(origin) + encode_utf8(to).len() + COMMAND_OVERHEAD <= WORD_MAX
}

/// What has been found so far, together with what the rest of the walk
/// finds.
pub open spec fn merged(has_main: bool, sound: bool, rest: Option<Survey>) -> Option<Survey> {
    match rest {
        None => None,
        Some(found) => Some(
            Survey {
                end: found.end,
                has_main: has_main || found.has_main,
                sound: sound && found.sound,
            },
        ),
    }
}

/// A walk that finds all its commands ends within the image, and no
/// earlier than it began: every command that it passed lies between.
pub proof fn lemma_walk_stays_within(image: Seq<u8>, at: int, left: nat, little: bool)
    requires
        0 <= at <= image.len(),
    ensures
        command_survey(image, at, left, little) matches Some(found) ==> at <= found.end
            <= image.len(),
    decreases left,
{
    if left > 0 {
        reveal(command_step);
        if let Some((size, _, _)) = command_step(image, at, little) {
            lemma_walk_stays_within(image, at + size, (left - 1) as nat, little);
        }
    }
}

/// In an image that is fit to be changed, the load commands, and as many
/// bytes again as the command with the new name can take, lie within the
/// bytes that are held.
pub proof fn lemma_room_for_the_change(origin: Seq<u8>, held: int, to: Seq<char>)
    requires
        fit_to_change(origin, held, to),
    ensures
        image_survey(origin) matches Some(found) && header_len(origin) <= found.end
            <= origin.len() && found.end + encode_utf8(to).len() + COMMAND_OVERHEAD <= held,
{
    lemma_walk_stays_within(
        origin,
        header_len(origin),
        command_count(origin) as nat,
        little_endian(origin),
    );
}

/// Reads the word at offset `at`, if the image holds one there.
pub fn read_word(image: &[u8], at: usize, little: bool) -> (word: Option<u32>)
    ensures
        match word {
            Some(found) => at + 4 <= image@.len() && found == word_at(image@, at as int, little),
            None => at + 4 > image@.len(),
        },
{
    if image.len() < 4 || at > image.len() - 4 {
        return None;
    }
    let first: u32 = image[at] as u32;
    let second: u32 = image[at + 1] as u32;
    let third: u32 = image[at + 2] as u32;
    let fourth: u32 = image[at + 3] as u32;
    if little {
        Some(first + second * 0x100 + third * 0x1_0000 + fourth * 0x100_0000)
    } else {
        Some(first * 0x100_0000 + second * 0x1_0000 + third * 0x100 + fourth)
    }
}

/// Reads the number of eight bytes at offset `at`, if the image holds one
/// there.
pub fn read_long(image: &[u8], at: usize, little: bool) -> (long: Option<u64>)
    ensures
        match long {
            Some(found) => at + 8 <= image@.len() && found == long_at(image@, at as int, little),
            None => at + 8 > image@.len(),
        },
{
    if image.len() < 8 || at > image.len() - 8 {
        return None;
    }
    let first: u64 = match read_word(image, at, little) {
        Some(word) => word as u64,
        None => {
            return None;
        },
    };
    let second: u64 = match read_word(image, at + 4, little) {
        Some(word) => word as u64,
        None => {
            return None;
        },
    };
    if little {
        Some(first + second * 0x1_0000_0000)
    } else {
        Some(first * 0x1_0000_0000 + second)
    }
}

/// What was found of an image: where its load commands end, whether one
/// tells where the program starts, and whether all that was passed is
/// sound.
#[derive(Clone, Copy, Debug, PartialEq, Eq)]
pub struct Surveyed {
    pub end: usize,
    pub has_main: bool,
    pub sound: bool,
}

impl View for Surveyed {
    type V = Survey;

    open spec fn view(&self) -> Survey {
        Survey { end: self.end as int, has_main: self.has_main, sound: self.sound }
    }
}

fn check_command(image: &[u8], at: usize, kind: u32, little: bool) -> (found: Option<(bool, bool)>)
    requires
        at + 8 <= image@.len(),
    ensures
        found == command_check(image@, at as int, kind as int, little),
{
    let room = image.len() - at;
    if kind == LC_SEGMENT {
        if room < 56 {
            return None;
        }
        match (read_word(image, at + 32, little), read_word(image, at + 24, little)) {
            (Some(file), Some(memory)) => Some((false, file <= memory)),
            _ => None,
        }
    } else if kind == LC_SEGMENT_64 {
        if room < 72 {
            return None;
        }
        match (read_long(image, at + 40, little), read_long(image, at + 24, little)) {
            (Some(file), Some(memory)) => Some((false, file <= memory && memory < HALF_RANGE)),
            _ => None,
        }
    } else if kind == LC_MAIN {
        if room < 24 {
            return None;
        }
        match read_long(image, at + 8, little) {
            Some(start) => Some((true, start < HALF_RANGE)),
            None => None,
        }
    } else {
        Some((false, true))
    }
}

fn step(image: &[u8], at: usize, little: bool) -> (found: Option<(usize, bool, bool)>)
    requires
        at <= image@.len(),
    ensures
        match found {
            Some(seen) => command_step(image@, at as int, little) == Some(
                (seen.0 as int, seen.1, seen.2),
            ) && 8 <= seen.0 && at + seen.0 <= image@.len(),
            None => command_step(image@, at as int, little) is None,
        },
{
    reveal(command_step);
    if image.len() - at < 8 {
        return None;
    }
    let kind = match read_word(image, at, little) {
        Some(kind) => kind,
        None => {
            return None;
        },
    };
    let size = match read_word(image, at + 4, little) {
        Some(size) => size as usize,
        None => {
            return None;
        },
    };
    if size < 8 || size > image.len() - at {
        return None;
    }
    match check_command(image, at, kind, little) {
        Some((main, sound)) => Some((size, main, sound)),
        None => None,
    }
}

/// Walks along the load commands of an image.
pub fn survey(image: &[u8]) -> (found: Option<Surveyed>)
    ensures
        match image_survey(image@) {
            Some(wanted) => found matches Some(seen) && seen@ == wanted,
            None => found is None,
        },
{
    if image.len() < 32 {
        return None;
    }
    let lead = match read_word(image, 0, false) {
        Some(lead) => lead,
        None => {
            return None;
        },
    };
    assert(lead == leading_word(image@));
    let wide = lead == 0xFEEDFACF || lead == 0xCFFAEDFE;
    let little = lead == 0xCEFAEDFE || lead == 0xCFFAEDFE;
    if !(lead == 0xFEEDFACE || wide || lead == 0xCEFAEDFE) {
        return None;
    }
    let count = match read_word(image, 16, little) {
        Some(count) => count,
        None => {
            return None;
        },
    };
    let mut at: usize = if wide {
        32
    } else {
        28
    };
    let mut done: u32 = 0;
    let mut has_main = false;
    let mut sound = true;
    let ghost whole = image_survey(image@);
    let len = image.len();
    assert(whole == merged(
        has_main,
        sound,
        command_survey(image@, at as int, (count - done) as nat, little),
    ));
    while done < count
        invariant
            at <= image@.len(),
            len == image@.len(),
            done <= count,
            whole == image_survey(image@),
            whole == merged(
                has_main,
                sound,
                command_survey(image@, at as int, (count - done) as nat, little),
            ),
        decreases count - done,
    {
        let ghost left = (count - done) as nat;
        let ghost here = at as int;
        match step(image, at, little) {
            Some(seen) => {
                let size = seen.0;
                let main = seen.1;
                let fine = seen.2;
                proof {
                    let rest = command_survey(image@, here + size, (left - 1) as nat, little);
                    assert(command_survey(image@, here, left, little) == merged(main, fine, rest));
                }
                has_main = has_main || main;
                sound = sound && fine;
                at = at + size;
            },
            None => {
                return None;
            },
        }
        done = done + 1;
    }
    Some(Surveyed { end: at, has_main, sound })
}

/// Reads the length of all load commands together from the header.
pub(crate) fn read_commands_len(image: &[u8]) -> (len: u32)
    requires
        is_mach_o(image@),
    ensures
        len == commands_len(image@),
{
    let lead = read_word(image, 0, false).unwrap();
    assert(lead == leading_word(image@));
    let little = lead == 0xCEFAEDFE || lead == 0xCFFAEDFE;
    read_word(image, 20, little).unwrap()
}

} // verus!
