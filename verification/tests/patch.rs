use chug::error::Error;
use chug::image::{read_long, read_word, survey, Surveyed};
use chug::macho::{patch, replacements, Relinked, Rename};
use chug::patch::{patch_and_write, rewrite_placeholders, Patched, Platform};

const PREFIX: &[u8] = b"/home/me/.local/share/chug";
const CELLAR: &[u8] = b"/home/me/.local/share/chug/bottles";

#[test]
fn rewrite_leaves_contents_without_placeholders_alone() {
    assert_eq!(rewrite_placeholders(b"", PREFIX, CELLAR), None);
    assert_eq!(rewrite_placeholders(b"#!/bin/sh\necho hello\n", PREFIX, CELLAR), None);
    assert_eq!(rewrite_placeholders(b"@@HOMEBREW_", PREFIX, CELLAR), None);
    assert_eq!(rewrite_placeholders(b"@@HOMEBREW_PREFIX@", PREFIX, CELLAR), None);
    assert_eq!(rewrite_placeholders(b"@@HOMEBREW_LIBRARY@@/x", PREFIX, CELLAR), None);
}

#[test]
fn rewrite_replaces_the_prefix_placeholder() {
    assert_eq!(
        rewrite_placeholders(b"#!@@HOMEBREW_PREFIX@@/bin/python3\n", PREFIX, CELLAR),
        Some(b"#!/home/me/.local/share/chug/bin/python3\n".to_vec())
    );
}

#[test]
fn rewrite_replaces_the_cellar_placeholder() {
    assert_eq!(
        rewrite_placeholders(b"path=@@HOMEBREW_CELLAR@@/gh/2.40.0", PREFIX, CELLAR),
        Some(b"path=/home/me/.local/share/chug/bottles/gh/2.40.0".to_vec())
    );
}

#[test]
fn rewrite_replaces_every_placeholder() {
    let contents = b"@@HOMEBREW_PREFIX@@:@@HOMEBREW_CELLAR@@:@@HOMEBREW_PREFIX@@@@HOMEBREW_CELLAR@@";
    assert_eq!(rewrite_placeholders(contents, b"P", b"C"), Some(b"P:C:PC".to_vec()));
}

#[test]
fn rewrite_takes_placeholders_from_the_left() {
    assert_eq!(
        rewrite_placeholders(b"@@HOMEBREW_PREFIX@@HOMEBREW_CELLAR@@", b"P", b"C"),
        Some(b"PHOMEBREW_CELLAR@@".to_vec())
    );
    assert_eq!(
        rewrite_placeholders(b"@@HOMEBREW_@@HOMEBREW_CELLAR@@@", b"P", b"C"),
        Some(b"@@HOMEBREW_C@".to_vec())
    );
}

#[test]
fn rewrite_with_an_empty_replacement() {
    assert_eq!(rewrite_placeholders(b"@@HOMEBREW_PREFIX@@/bin", b"", b"C"), Some(b"/bin".to_vec()));
    assert_eq!(rewrite_placeholders(b"@@HOMEBREW_PREFIX@@", b"", b"C"), Some(Vec::new()));
}

#[test]
fn rewrite_keeps_bytes_that_are_no_text() {
    let mut contents = vec![0u8, 159, 146, 150, 255];
    contents.extend_from_slice(b"@@HOMEBREW_CELLAR@@");
    contents.extend_from_slice(&[0, 1, 2]);
    let mut wanted = vec![0u8, 159, 146, 150, 255];
    wanted.extend_from_slice(b"/c");
    wanted.extend_from_slice(&[0, 1, 2]);
    assert_eq!(rewrite_placeholders(&contents, b"/p", b"/c"), Some(wanted));
}

#[test]
fn patch_and_write_rewrites_what_is_no_binary() {
    assert_eq!(
        patch_and_write(b"x=@@HOMEBREW_PREFIX@@", Platform::Linux, b"/p", b"/c"),
        Ok(Patched::Rewritten(b"x=/p".to_vec()))
    );
    assert_eq!(patch_and_write(b"plain", Platform::MacOs, b"/p", b"/c"), Ok(Patched::Verbatim));
    assert_eq!(patch_and_write(b"ab", Platform::Other, b"/p", b"/c"), Ok(Patched::Verbatim));
}

#[test]
fn patch_and_write_refuses_an_elf_image_on_linux() {
    let mut image = vec![0x7f, b'E', b'L', b'F', 2, 1, 1, 0];
    image.extend_from_slice(b"@@HOMEBREW_PREFIX@@/lib");
    assert_eq!(patch_and_write(&image, Platform::Linux, b"/p", b"/c"), Err(Error::PatchFailure));
}

#[test]
fn patch_and_write_rewrites_an_elf_image_elsewhere() {
    let mut image = vec![0x7f, b'E', b'L', b'F'];
    image.extend_from_slice(b"@@HOMEBREW_PREFIX@@");
    let mut wanted = vec![0x7f, b'E', b'L', b'F'];
    wanted.extend_from_slice(b"/p");
    assert_eq!(patch_and_write(&image, Platform::MacOs, b"/p", b"/c"), Ok(Patched::Rewritten(wanted)));
}

#[test]
fn patch_and_write_rewrites_a_mach_o_image_off_macos() {
    let mut image = vec![0xcf, 0xfa, 0xed, 0xfe];
    image.extend_from_slice(b"@@HOMEBREW_CELLAR@@");
    let mut wanted = vec![0xcf, 0xfa, 0xed, 0xfe];
    wanted.extend_from_slice(b"/c");
    assert_eq!(patch_and_write(&image, Platform::Linux, b"/p", b"/c"), Ok(Patched::Rewritten(wanted)));
}

#[test]
fn patch_and_write_refuses_a_broken_mach_o_image_on_macos() {
    let image = vec![0xcf, 0xfa, 0xed, 0xfe, 1, 2, 3];
    assert_eq!(patch_and_write(&image, Platform::MacOs, b"/p", b"/c"), Err(Error::PatchFailure));
}

fn text(names: &[&str]) -> Vec<String> {
    names.iter().map(|n| n.to_string()).collect()
}

#[test]
fn replacements_change_names_that_begin_with_a_placeholder() {
    let names = text(&[
        "self",
        "@@HOMEBREW_PREFIX@@/opt/openssl@3/lib/libssl.3.dylib",
        "/usr/lib/libSystem.B.dylib",
        "@@HOMEBREW_CELLAR@@/gh/2.40.0/lib/libgh.dylib",
    ]);
    assert_eq!(
        replacements(&names, "/p", "/c"),
        vec![
            Rename {
                old: "@@HOMEBREW_PREFIX@@/opt/openssl@3/lib/libssl.3.dylib".to_string(),
                new: "/p/opt/openssl@3/lib/libssl.3.dylib".to_string(),
            },
            Rename {
                old: "@@HOMEBREW_CELLAR@@/gh/2.40.0/lib/libgh.dylib".to_string(),
                new: "/c/gh/2.40.0/lib/libgh.dylib".to_string(),
            },
        ]
    );
}

#[test]
fn replacements_never_change_the_first_name() {
    let names = text(&["@@HOMEBREW_PREFIX@@/lib/libself.dylib"]);
    assert!(replacements(&names, "/p", "/c").is_empty());
    assert!(replacements(&Vec::new(), "/p", "/c").is_empty());
}

#[test]
fn replacements_replace_the_leading_placeholder_wherever_it_stands() {
    let names = text(&[
        "self",
        "@@HOMEBREW_PREFIX@@/a/@@HOMEBREW_PREFIX@@/@@HOMEBREW_CELLAR@@",
        "/x/@@HOMEBREW_PREFIX@@/lib",
        "@@HOMEBREW_CELLAR@@/@@HOMEBREW_PREFIX@@",
    ]);
    assert_eq!(
        replacements(&names, "/p", "/c"),
        vec![
            Rename {
                old: "@@HOMEBREW_PREFIX@@/a/@@HOMEBREW_PREFIX@@/@@HOMEBREW_CELLAR@@".to_string(),
                new: "/p/a//p/@@HOMEBREW_CELLAR@@".to_string(),
            },
            Rename {
                old: "@@HOMEBREW_CELLAR@@/@@HOMEBREW_PREFIX@@".to_string(),
                new: "/c/@@HOMEBREW_PREFIX@@".to_string(),
            },
        ]
    );
}

fn word(value: u32) -> [u8; 4] {
    value.to_le_bytes()
}

/// A 64-bit little-endian Mach-O image that loads the given libraries, with
/// room behind its load commands.
fn image_loading(libraries: &[&str]) -> Vec<u8> {
    let mut commands = Vec::new();
    for library in libraries {
        let size = (24 + library.len() + 1 + 7) / 8 * 8;
        commands.extend_from_slice(&word(0xc));
        commands.extend_from_slice(&word(size as u32));
        commands.extend_from_slice(&word(24));
        commands.extend_from_slice(&word(2));
        commands.extend_from_slice(&word(0x10000));
        commands.extend_from_slice(&word(0x10000));
        commands.extend_from_slice(library.as_bytes());
        commands.resize(commands.len() + size - 24 - library.len(), 0);
    }
    let mut image = Vec::new();
    image.extend_from_slice(&word(0xfeedfacf));
    image.extend_from_slice(&word(0x0100000c));
    image.extend_from_slice(&word(0));
    image.extend_from_slice(&word(2));
    image.extend_from_slice(&word(libraries.len() as u32));
    image.extend_from_slice(&word(commands.len() as u32));
    image.extend_from_slice(&word(0));
    image.extend_from_slice(&word(0));
    image.extend_from_slice(&commands);
    image.resize(image.len() + 1024, 0);
    image
}

#[test]
fn patch_leaves_an_image_without_placeholders_alone() {
    let image = image_loading(&["/usr/lib/libSystem.B.dylib", "/usr/lib/libz.1.dylib"]);
    assert_eq!(patch(&image, "/p", "/c"), Ok(Relinked::Unchanged));
    assert_eq!(patch_and_write(&image, Platform::MacOs, b"/p", b"/c"), Ok(Patched::Verbatim));
}

#[test]
fn patch_changes_the_names_of_an_image() {
    let image = image_loading(&[
        "/usr/lib/libSystem.B.dylib",
        "@@HOMEBREW_PREFIX@@/opt/openssl@3/lib/libssl.3.dylib",
        "@@HOMEBREW_CELLAR@@/gh/2.40.0/lib/libgh.dylib",
    ]);
    let changed = match patch(&image, "/home/me/chug", "/home/me/chug/bottles") {
        Ok(Relinked::Changed(changed)) => changed,
        other => panic!("the image was not changed: {other:?}"),
    };
    assert_ne!(changed, image);
    let holds = |image: &[u8], text: &str| image.windows(text.len()).any(|w| w == text.as_bytes());
    assert!(holds(&changed, "/home/me/chug/opt/openssl@3/lib/libssl.3.dylib"));
    assert!(holds(&changed, "/home/me/chug/bottles/gh/2.40.0/lib/libgh.dylib"));
    assert!(holds(&changed, "/usr/lib/libSystem.B.dylib"));
    assert!(!holds(&changed, "@@HOMEBREW_"));
    // What was changed has nothing left to change.
    assert_eq!(patch(&changed, "/home/me/chug", "/home/me/chug/bottles"), Ok(Relinked::Unchanged));
}

#[test]
fn patch_refuses_what_is_no_image() {
    let mut image = vec![0xcf, 0xfa, 0xed, 0xfe];
    image.extend_from_slice(&[0xff; 64]);
    assert_eq!(patch(&image, "/p", "/c"), Err(Error::PatchFailure));
}

fn long(value: u64) -> [u8; 8] {
    value.to_le_bytes()
}

fn loading(library: &str) -> Vec<u8> {
    let size = (24 + library.len() + 1 + 7) / 8 * 8;
    let mut command = Vec::new();
    command.extend_from_slice(&word(0xc));
    command.extend_from_slice(&word(size as u32));
    command.extend_from_slice(&word(24));
    command.extend_from_slice(&word(2));
    command.extend_from_slice(&word(0x10000));
    command.extend_from_slice(&word(0x10000));
    command.extend_from_slice(library.as_bytes());
    command.resize(size, 0);
    command
}

fn segment(address: u64, offset: u64) -> Vec<u8> {
    let mut command = Vec::new();
    command.extend_from_slice(&word(0x19));
    command.extend_from_slice(&word(72));
    command.extend_from_slice(b"__TEXT\0\0\0\0\0\0\0\0\0\0");
    command.extend_from_slice(&long(address));
    command.extend_from_slice(&long(0x4000));
    command.extend_from_slice(&long(offset));
    command.extend_from_slice(&long(0));
    command.extend_from_slice(&word(5));
    command.extend_from_slice(&word(5));
    command.extend_from_slice(&word(0));
    command.extend_from_slice(&word(0));
    command
}

fn start(offset: u64) -> Vec<u8> {
    let mut command = Vec::new();
    command.extend_from_slice(&word(0x80000028));
    command.extend_from_slice(&word(24));
    command.extend_from_slice(&long(offset));
    command.extend_from_slice(&long(0));
    command
}

fn image_of(commands: &[Vec<u8>], announced: u32, room: usize) -> Vec<u8> {
    let mut image = Vec::new();
    image.extend_from_slice(&word(0xfeedfacf));
    image.extend_from_slice(&word(0x0100000c));
    image.extend_from_slice(&word(0));
    image.extend_from_slice(&word(2));
    image.extend_from_slice(&word(commands.len() as u32));
    image.extend_from_slice(&word(announced));
    image.extend_from_slice(&word(0));
    image.extend_from_slice(&word(0));
    for command in commands {
        image.extend_from_slice(command);
    }
    image.resize(image.len() + room, 0);
    image
}

fn total(commands: &[Vec<u8>]) -> u32 {
    commands.iter().map(|c| c.len() as u32).sum()
}

#[test]
fn read_word_reads_either_byte_order() {
    let bytes = [0x01, 0x02, 0x03, 0x04, 0x05];
    assert_eq!(read_word(&bytes, 0, true), Some(0x04030201));
    assert_eq!(read_word(&bytes, 0, false), Some(0x01020304));
    assert_eq!(read_word(&bytes, 1, true), Some(0x05040302));
    assert_eq!(read_word(&bytes, 2, true), None);
    assert_eq!(read_word(&bytes[..3], 0, true), None);
    assert_eq!(read_word(&bytes, usize::MAX, true), None);
}

#[test]
fn read_long_reads_either_byte_order() {
    let bytes = [0x01, 0x02, 0x03, 0x04, 0x05, 0x06, 0x07, 0x08, 0x09];
    assert_eq!(read_long(&bytes, 0, true), Some(0x0807060504030201));
    assert_eq!(read_long(&bytes, 0, false), Some(0x0102030405060708));
    assert_eq!(read_long(&bytes, 1, false), Some(0x0203040506070809));
    assert_eq!(read_long(&bytes, 2, false), None);
}

#[test]
fn survey_walks_the_load_commands() {
    let commands = vec![loading("/usr/lib/libSystem.B.dylib"), loading("/usr/lib/libz.1.dylib")];
    let image = image_of(&commands, total(&commands), 64);
    assert_eq!(
        survey(&image),
        Some(Surveyed { end: 32 + 56 + 48, has_main: false, sound: true })
    );
}

#[test]
fn survey_sees_a_start_and_sound_segments() {
    let commands = vec![segment(0x1_0000_0000, 0), start(0x400), loading("/usr/lib/libz.1.dylib")];
    let image = image_of(&commands, total(&commands), 64);
    assert_eq!(
        survey(&image),
        Some(Surveyed { end: 32 + 72 + 24 + 48, has_main: true, sound: true })
    );
}

#[test]
fn survey_sees_a_segment_later_in_the_file_than_in_memory() {
    let commands = vec![segment(0x1000, 0x2000), loading("/usr/lib/libz.1.dylib")];
    let image = image_of(&commands, total(&commands), 64);
    assert_eq!(
        survey(&image),
        Some(Surveyed { end: 32 + 72 + 48, has_main: false, sound: false })
    );
    let high = vec![segment(0x8000_0000_0000_0000, 0)];
    let image = image_of(&high, total(&high), 64);
    assert_eq!(survey(&image), Some(Surveyed { end: 32 + 72, has_main: false, sound: false }));
    let far = vec![segment(0x1000, 0), start(0x8000_0000_0000_0000)];
    let image = image_of(&far, total(&far), 64);
    assert_eq!(survey(&image), Some(Surveyed { end: 32 + 72 + 24, has_main: true, sound: false }));
}

#[test]
fn survey_refuses_commands_that_do_not_lie_within_the_image() {
    assert_eq!(survey(&[]), None);
    assert_eq!(survey(&[0xcf, 0xfa, 0xed, 0xfe]), None);
    assert_eq!(survey(b"#!/bin/sh\n and more text to make thirty-two bytes"), None);
    let commands = vec![loading("/usr/lib/libz.1.dylib")];
    let whole = image_of(&commands, total(&commands), 0);
    assert_eq!(survey(&whole), Some(Surveyed { end: 32 + 48, has_main: false, sound: true }));
    assert_eq!(survey(&whole[..whole.len() - 1]), None);
    assert_eq!(survey(&whole[..36]), None);
    let mut short = whole.clone();
    short[36..40].copy_from_slice(&word(4));
    assert_eq!(survey(&short), None);
    let mut cut = image_of(&[segment(0x1000, 0)], 72, 0);
    cut[36..40].copy_from_slice(&word(40));
    cut.truncate(32 + 40);
    assert_eq!(survey(&cut), None);
}

#[test]
fn survey_reads_a_narrow_image_in_big_endian() {
    let mut image = Vec::new();
    for value in [0xfeedfaceu32, 7, 3, 2, 1, 16, 0] {
        image.extend_from_slice(&value.to_be_bytes());
    }
    for value in [0x1bu32, 16, 0, 0] {
        image.extend_from_slice(&value.to_be_bytes());
    }
    image.resize(64, 0);
    assert_eq!(survey(&image), Some(Surveyed { end: 28 + 16, has_main: false, sound: true }));
}

#[test]
fn patch_refuses_an_image_without_room_for_the_longer_name() {
    let commands = vec![loading("@@HOMEBREW_PREFIX@@/x.dylib")];
    assert_eq!(commands[0].len(), 56);
    let image = image_of(&commands, 56, 0);
    let prefix = "/".to_string() + &"p".repeat(79);
    assert_eq!(patch(&image, &prefix, "/c"), Err(Error::PatchFailure));
    assert_eq!(
        patch_and_write(&image, Platform::MacOs, prefix.as_bytes(), b"/c"),
        Err(Error::PatchFailure)
    );
    // With room behind the load commands the same change is made.
    let roomy = image_of(&commands, 56, 256);
    let changed = match patch(&roomy, &prefix, "/c") {
        Ok(Relinked::Changed(changed)) => changed,
        other => panic!("the image was not changed: {other:?}"),
    };
    let wanted = prefix.clone() + "/x.dylib";
    assert!(changed.windows(wanted.len()).any(|w| w == wanted.as_bytes()));
}

#[test]
fn patch_refuses_a_change_where_the_commands_do_not_fill_their_length() {
    let commands = vec![loading("/usr/lib/libz.1.dylib"), loading("@@HOMEBREW_PREFIX@@/x.dylib")];
    let loose = image_of(&commands, total(&commands) + 16, 1024);
    assert_eq!(patch(&loose, "/p", "/c"), Err(Error::PatchFailure));
    let plain = vec![loading("/usr/lib/libz.1.dylib")];
    let loose = image_of(&plain, total(&plain) + 16, 1024);
    assert_eq!(patch(&loose, "/p", "/c"), Ok(Relinked::Unchanged));
}

#[test]
fn patch_reads_an_image_with_a_start_and_sound_segments() {
    let commands = vec![
        segment(0x1_0000_0000, 0),
        start(0x400),
        loading("/usr/lib/libSystem.B.dylib"),
        loading("@@HOMEBREW_CELLAR@@/gh/2.40.0/lib/libgh.dylib"),
    ];
    let image = image_of(&commands, total(&commands), 2048);
    let changed = match patch(&image, "/home/me/chug", "/home/me/chug/bottles") {
        Ok(Relinked::Changed(changed)) => changed,
        other => panic!("the image was not changed: {other:?}"),
    };
    let wanted = "/home/me/chug/bottles/gh/2.40.0/lib/libgh.dylib";
    assert!(changed.windows(wanted.len()).any(|w| w == wanted.as_bytes()));
    assert!(changed.len() >= image.len());
}

#[test]
fn patch_refuses_an_image_whose_start_cannot_be_worked_out() {
    let commands =
        vec![segment(0x1000, 0x2000), start(0x400), loading("/usr/lib/libSystem.B.dylib")];
    let image = image_of(&commands, total(&commands), 2048);
    assert_eq!(patch(&image, "/p", "/c"), Err(Error::PatchFailure));
    // Without a start nothing is worked out, and the image is read.
    let commands = vec![segment(0x1000, 0x2000), loading("/usr/lib/libSystem.B.dylib")];
    let image = image_of(&commands, total(&commands), 2048);
    assert_eq!(patch(&image, "/p", "/c"), Ok(Relinked::Unchanged));
}

#[test]
fn patch_refuses_a_command_shorter_than_its_leading_words() {
    let mut image = image_of(&[loading("/usr/lib/libz.1.dylib")], 48, 1024);
    image[36..40].copy_from_slice(&word(4));
    assert_eq!(patch(&image, "/p", "/c"), Err(Error::PatchFailure));
}

#[test]
fn patch_and_write_rewrites_with_directories_that_are_no_text() {
    let prefix = [b'/', 0xff, 0xfe];
    let cellar = [b'/', 0xff, 0xfe, b'/', b'b'];
    assert_eq!(
        patch_and_write(b"a=@@HOMEBREW_PREFIX@@;b=@@HOMEBREW_CELLAR@@", Platform::MacOs, &prefix, &cellar),
        Ok(Patched::Rewritten(vec![
            b'a', b'=', b'/', 0xff, 0xfe, b';', b'b', b'=', b'/', 0xff, 0xfe, b'/', b'b'
        ]))
    );
    assert_eq!(patch_and_write(b"plain", Platform::Linux, &prefix, &cellar), Ok(Patched::Verbatim));
}

#[test]
fn patch_and_write_relinks_only_with_directories_that_are_text() {
    let image = image_loading(&["/usr/lib/libSystem.B.dylib", "@@HOMEBREW_PREFIX@@/lib/libz.dylib"]);
    assert_eq!(
        patch_and_write(&image, Platform::MacOs, &[b'/', 0xff], b"/c"),
        Err(Error::PatchFailure)
    );
    assert_eq!(
        patch_and_write(&image, Platform::MacOs, b"/p", &[0xc0, 0x80]),
        Err(Error::PatchFailure)
    );
    let changed = match patch_and_write(&image, Platform::MacOs, "/caf\u{e9}".as_bytes(), b"/c") {
        Ok(Patched::Relinked(changed)) => changed,
        other => panic!("the image was not changed: {other:?}"),
    };
    let wanted = "/caf\u{e9}/lib/libz.dylib";
    assert!(changed.windows(wanted.len()).any(|w| w == wanted.as_bytes()));
    assert_eq!(Ok(Relinked::Changed(changed)), patch(&image, "/caf\u{e9}", "/c"));
}
