use chug::bottles::{bottle_path, Bottle, FileMetadata};
use chug::error::Error;
use chug::validate::{digest_matches, Validate};

const ABC: &str = "ba7816bf8f01cfea414140de5dae2223b00361a396177a9cb410ff61f20015ad";
const EMPTY: &str = "e3b0c44298fc1c149afbf4c8996fb92427ae41e4649b934ca495991b7852b855";

fn metadata(sha256: &str) -> FileMetadata {
    FileMetadata { url: "https://example.org/bottle.tar.gz".to_string(), sha256: sha256.to_string() }
}

fn digest(hex: &str) -> Vec<u8> {
    metadata(hex).digest().unwrap()
}

#[test]
fn digest_decodes_lower_case_hexadecimal() {
    assert_eq!(metadata("00ff10a9").digest(), Ok(vec![0x00, 0xff, 0x10, 0xa9]));
    assert_eq!(metadata("").digest(), Ok(Vec::new()));
    assert_eq!(digest(ABC).len(), 32);
    assert_eq!(digest(ABC)[0], 0xba);
    assert_eq!(digest(ABC)[31], 0xad);
}

#[test]
fn digest_refuses_what_is_no_lower_case_hexadecimal() {
    assert_eq!(metadata("abc").digest(), Err(Error::ChecksumMismatch));
    assert_eq!(metadata("zz").digest(), Err(Error::ChecksumMismatch));
    assert_eq!(metadata("AB").digest(), Err(Error::ChecksumMismatch));
    assert_eq!(metadata("0g").digest(), Err(Error::ChecksumMismatch));
    assert_eq!(metadata("12 34").digest(), Err(Error::ChecksumMismatch));
}

#[test]
fn validate_accepts_the_expected_digest() {
    let mut reader = Validate::new((), digest(ABC));
    reader.observe(b"abc");
    assert_eq!(reader.validate(), Ok(()));
}

#[test]
fn validate_accepts_an_empty_stream() {
    let reader = Validate::new((), digest(EMPTY));
    assert_eq!(reader.validate(), Ok(()));
}

#[test]
fn validate_takes_the_bytes_in_pieces() {
    let mut reader = Validate::new((), digest(ABC));
    reader.observe(b"a");
    reader.observe(b"");
    reader.observe(b"bc");
    assert_eq!(reader.validate(), Ok(()));
}

#[test]
fn validate_refuses_another_body() {
    let mut reader = Validate::new((), digest(ABC));
    reader.observe(b"abd");
    assert_eq!(reader.validate(), Err(Error::ChecksumMismatch));
}

#[test]
fn validate_refuses_a_body_that_was_cut_short() {
    let mut reader = Validate::new((), digest(ABC));
    reader.observe(b"ab");
    assert_eq!(reader.validate(), Err(Error::ChecksumMismatch));
}

#[test]
fn validate_refuses_bytes_in_another_order() {
    let mut reader = Validate::new((), digest(ABC));
    reader.observe(b"bc");
    reader.observe(b"a");
    assert_eq!(reader.validate(), Err(Error::ChecksumMismatch));
}

#[test]
fn validate_refuses_a_digest_of_the_wrong_length() {
    let mut reader = Validate::new((), vec![0xba, 0x78]);
    reader.observe(b"abc");
    assert_eq!(reader.validate(), Err(Error::ChecksumMismatch));
}

#[test]
fn validate_hands_out_the_stream() {
    let mut reader = Validate::new(vec![1u8, 2, 3], digest(EMPTY));
    reader.get_mut().push(4);
    assert_eq!(reader.get_mut().len(), 4);
    assert_eq!(reader.validate(), Ok(()));
}

#[test]
fn digest_matches_compares_bytes() {
    assert!(digest_matches(&[1, 2, 3], &[1, 2, 3]));
    assert!(digest_matches(&[], &[]));
    assert!(!digest_matches(&[1, 2, 3], &[1, 2]));
    assert!(!digest_matches(&[1, 2, 3], &[1, 2, 4]));
}

fn bottle() -> Bottle {
    Bottle {
        files: vec![
            ("arm64_sonoma".to_string(), metadata("01")),
            ("all".to_string(), metadata("02")),
            ("x86_64_linux".to_string(), metadata("03")),
        ],
    }
}

#[test]
fn current_target_prefers_the_file_of_the_target() {
    assert_eq!(bottle().current_target("x86_64_linux").unwrap().sha256, "03");
    assert_eq!(bottle().current_target("arm64_sonoma").unwrap().sha256, "01");
}

#[test]
fn current_target_falls_back_on_the_file_for_all() {
    assert_eq!(bottle().current_target("arm64_sequoia").unwrap().sha256, "02");
    assert_eq!(bottle().current_target("all").unwrap().sha256, "02");
}

#[test]
fn current_target_fails_without_a_file() {
    let only = Bottle { files: vec![("arm64_sonoma".to_string(), metadata("01"))] };
    assert_eq!(
        only.current_target("x86_64_linux").unwrap_err(),
        Error::NoBottle("x86_64_linux".to_string())
    );
    let none = Bottle { files: Vec::new() };
    assert_eq!(none.current_target("all").unwrap_err(), Error::NoBottle("all".to_string()));
}

fn names(list: &[&str]) -> Vec<String> {
    list.iter().map(|n| n.to_string()).collect()
}

#[test]
fn bottle_path_prefers_the_version_itself() {
    assert_eq!(bottle_path(&names(&["2.40.0_1", "2.40.0", "2.39.0"]), "2.40.0"), Some(1));
}

#[test]
fn bottle_path_takes_the_first_revision() {
    assert_eq!(bottle_path(&names(&["2.39.0", "2.40.0_2", "2.40.0_1"]), "2.40.0"), Some(1));
}

#[test]
fn bottle_path_takes_nothing_else() {
    assert_eq!(bottle_path(&names(&["2.40.01", "2.40.0-1", "2.40", "2.40.00"]), "2.40.0"), None);
    assert_eq!(bottle_path(&names(&[]), "2.40.0"), None);
}
