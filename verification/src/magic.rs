//! Classification of a file by the magic number in its first four bytes.

use vstd::prelude::*;

verus! {

/// The binary formats that matter when an installed file is patched.
#[derive(Clone, Copy, Debug, PartialEq, Eq, Structural)]
pub enum Magic {
    MachO,
    FatMachO,
    Elf,
    Unknown,
}

/// The first four bytes of `contents`, read as a big-endian 32-bit number.
pub open spec fn leading_word(contents: Seq<u8>) -> int
    recommends
        contents.len() >= 4,
{
    contents[0] as int * 0x100_0000 + contents[1] as int * 0x1_0000 + contents[2] as int * 0x100
        + contents[3] as int
}

/// The format that a leading word announces.
pub open spec fn classify(word: int) -> Magic {
    if word == 0xCAFEBABE {
        Magic::FatMachO
    } else if word == 0xFEEDFACE || word == 0xFEEDFACF || word == 0xCEFAEDFE || word
        == 0xCFFAEDFE {
        Magic::MachO
    } else if word == 0x7F454C46 {
        Magic::Elf
    } else {
        Magic::Unknown
    }
}

/// Detects the format of a file from its first four bytes.
///
/// Returns `None` when the file is shorter than four bytes.
pub fn detect(contents: &[u8]) -> (magic: Option<Magic>)
    ensures
        contents@.len() < 4 <==> magic is None,
        contents@.len() >= 4 ==> magic == Some(classify(leading_word(contents@))),
{
    if contents.len() < 4 {
        return None;
    }
    let b0: u32 = contents[0] as u32;
    let b1: u32 = contents[1] as u32;
    let b2: u32 = contents[2] as u32;
    let b3: u32 = contents[3] as u32;
    let word: u32 = b0 * 0x100_0000 + b1 * 0x1_0000 + b2 * 0x100 + b3;
    if word == 0xCAFEBABE {
        Some(Magic::FatMachO)
    } else if word == 0xFEEDFACE || word == 0xFEEDFACF || word == 0xCEFAEDFE || word
        == 0xCFFAEDFE {
        Some(Magic::MachO)
    } else if word == 0x7F454C46 {
        Some(Magic::Elf)
    } else {
        Some(Magic::Unknown)
    }
}

} // verus!
