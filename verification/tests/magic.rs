use chug::magic::{detect, Magic};

#[test]
fn detect_too_short_is_none() {
    assert_eq!(detect(&[]), None);
    assert_eq!(detect(&[0xCA, 0xFE, 0xBA]), None);
}

#[test]
fn detect_fat_macho() {
    assert_eq!(detect(&[0xCA, 0xFE, 0xBA, 0xBE]), Some(Magic::FatMachO));
    assert_eq!(detect(&[0xCA, 0xFE, 0xBA, 0xBE, 0, 1, 2]), Some(Magic::FatMachO));
}

#[test]
fn detect_macho_in_each_byte_order_and_width() {
    assert_eq!(detect(&[0xFE, 0xED, 0xFA, 0xCE]), Some(Magic::MachO));
    assert_eq!(detect(&[0xFE, 0xED, 0xFA, 0xCF]), Some(Magic::MachO));
    assert_eq!(detect(&[0xCE, 0xFA, 0xED, 0xFE]), Some(Magic::MachO));
    assert_eq!(detect(&[0xCF, 0xFA, 0xED, 0xFE]), Some(Magic::MachO));
}

#[test]
fn detect_elf() {
    assert_eq!(detect(&[0x7F, b'E', b'L', b'F', 2, 1, 1]), Some(Magic::Elf));
}

#[test]
fn detect_anything_else_is_unknown() {
    assert_eq!(detect(b"#!/bin/sh\n"), Some(Magic::Unknown));
    assert_eq!(detect(&[0xBE, 0xBA, 0xFE, 0xCA]), Some(Magic::Unknown));
    assert_eq!(detect(&[0, 0, 0, 0]), Some(Magic::Unknown));
}
