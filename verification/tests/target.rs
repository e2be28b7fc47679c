use chug::cache::{is_fresh, Cache, Timestamp, DISK_CACHE_TIMEOUT};
use chug::dirs::{bin_dir, bottles_dir, cache_dir, data_dir, etc_dir, opt_dir};
use chug::error::Error;
use chug::status::{layout_list, output_width, ContentLength};
use chug::target::Target;

#[test]
fn target_on_linux_is_architecture_and_system() {
    let target = Target::current("x86_64", "Linux", "").unwrap();
    assert_eq!(target.tag(), "x86_64_linux");
}

#[test]
fn target_on_macos_names_the_release() {
    assert_eq!(Target::current("arm64", "Darwin", "13.6.1").unwrap().tag(), "arm64_ventura");
    assert_eq!(Target::current("arm64", "Darwin", "14.2").unwrap().tag(), "arm64_sonoma");
    assert_eq!(Target::current("arm64", "Darwin", "15").unwrap().tag(), "arm64_sequoia");
    assert_eq!(Target::current("x86_64", "darwin", "16.0").unwrap().tag(), "x86_64_cheer");
}

#[test]
fn target_refuses_a_release_it_does_not_know() {
    assert_eq!(
        Target::current("arm64", "Darwin", "12.7").unwrap_err(),
        Error::UnsupportedSystem("12.7".to_string())
    );
    assert_eq!(
        Target::current("arm64", "Darwin", "140.1").unwrap_err(),
        Error::UnsupportedSystem("140.1".to_string())
    );
    assert_eq!(
        Target::current("arm64", "Darwin", "").unwrap_err(),
        Error::UnsupportedSystem(String::new())
    );
}

#[test]
fn target_from_parts_takes_the_system_as_it_is() {
    let target = Target::from_parts("riscv64".to_string(), "FreeBSD".to_string(), "14.0").unwrap();
    assert_eq!(target.tag(), "riscv64_FreeBSD");
    let darwin = Target::from_parts("arm64".to_string(), "darwin".to_string(), "14.0").unwrap();
    assert_eq!(darwin.tag(), "arm64_sonoma");
    // Only the lower-case name is macOS here.
    let shouted = Target::from_parts("arm64".to_string(), "DARWIN".to_string(), "14.0").unwrap();
    assert_eq!(shouted.tag(), "arm64_DARWIN");
}

#[test]
fn target_knows_macos_in_any_case() {
    assert!(Target::is_darwin("Darwin"));
    assert!(Target::is_darwin("DARWIN"));
    assert!(!Target::is_darwin("Linux"));
    assert!(!Target::is_darwin("darwin "));
}

#[test]
fn current_tag_is_the_tag_of_the_current_target() {
    assert_eq!(Target::current_tag("aarch64", "Linux", ""), Ok("aarch64_linux".to_string()));
    assert_eq!(
        Target::current_tag("arm64", "Darwin", "11.0"),
        Err(Error::UnsupportedSystem("11.0".to_string()))
    );
}

#[test]
fn current_str_is_worked_out_once() {
    let mut cache = Cache::new();
    assert_eq!(Target::current_str(&mut cache, "arm64", "Darwin", "14.2").unwrap(), "arm64_sonoma");
    // What is asked later does not matter any more.
    assert_eq!(Target::current_str(&mut cache, "x86_64", "Linux", "").unwrap(), "arm64_sonoma");
}

#[test]
fn current_str_keeps_nothing_of_a_failure() {
    let mut cache = Cache::new();
    assert!(Target::current_str(&mut cache, "arm64", "Darwin", "9").is_err());
    assert!(!cache.holds());
    assert_eq!(Target::current_str(&mut cache, "arm64", "Linux", "").unwrap(), "arm64_linux");
}

#[test]
fn cache_computes_its_value_once() {
    let mut cache: Cache<u32> = Cache::new();
    assert!(!cache.holds());
    let mut calls = 0;
    assert_eq!(
        cache.get_or_init(|| {
            calls += 1;
            Ok(41)
        }),
        Ok(&41)
    );
    assert_eq!(
        cache.get_or_init(|| {
            calls += 1;
            Ok(42)
        }),
        Ok(&41)
    );
    assert_eq!(calls, 1);
    assert!(cache.holds());
}

#[test]
fn cache_stays_empty_when_the_value_cannot_be_computed() {
    let mut cache: Cache<u32> = Cache::new();
    assert_eq!(cache.get_or_init(|| Err(Error::HomeUnset)), Err(Error::HomeUnset));
    assert!(!cache.holds());
    assert_eq!(cache.get_or_init(|| Ok(7)), Ok(&7));
}

#[test]
fn disk_cache_hands_out_what_memory_holds() {
    let mut cache: Cache<u32> = Cache::new();
    cache.get_or_init(|| Ok(5)).unwrap();
    let mut backed = cache.with_file("formula.json");
    assert_eq!(backed.filename(), "formula.json");
    let found = backed.get_or_init_json(
        |_| panic!("the file is not to be read"),
        || panic!("nothing is to be fetched"),
        |_| panic!("nothing is to be parsed"),
        |_, _| panic!("nothing is to be written"),
    );
    assert_eq!(found, Ok(&5));
}

#[test]
fn disk_cache_prefers_the_file_to_fetching() {
    let mut cache: Cache<u32> = Cache::new();
    let mut backed = cache.with_file("formula.json");
    let found = backed.get_or_init_json(
        |name| {
            assert_eq!(name, "formula.json");
            Some(9)
        },
        || panic!("nothing is to be fetched"),
        |_| panic!("nothing is to be parsed"),
        |_, _| panic!("nothing is to be written"),
    );
    assert_eq!(found, Ok(&9));
    assert!(cache.holds());
}

#[test]
fn disk_cache_fetches_parses_and_writes_through() {
    let mut cache: Cache<usize> = Cache::new();
    let mut written: Vec<(String, String)> = Vec::new();
    let found = cache.with_file("formula.json").get_or_init_json(
        |_| None,
        || Ok("[1, 2, 3]".to_string()),
        |text| Ok(text.len()),
        |name, text| {
            written.push((name.to_string(), text.clone()));
            Ok(())
        },
    )
    .map(|value| *value);
    assert_eq!(found, Ok(9));
    assert_eq!(written, vec![("formula.json".to_string(), "[1, 2, 3]".to_string())]);
}

#[test]
fn disk_cache_writes_nothing_that_cannot_be_parsed() {
    let mut cache: Cache<usize> = Cache::new();
    let found = cache.with_file("formula.json").get_or_init_json(
        |_| None,
        || Ok("not json".to_string()),
        |_| Err(Error::CatalogFailure),
        |_, _| panic!("nothing is to be written"),
    )
    .map(|value| *value);
    assert_eq!(found, Err(Error::CatalogFailure));
    assert!(!cache.holds());
}

#[test]
fn disk_cache_keeps_nothing_when_fetching_or_writing_fails() {
    let mut cache: Cache<usize> = Cache::new();
    let found = cache.with_file("formula.json").get_or_init_json(
        |_| None,
        || Err(Error::HomeUnset),
        |_| panic!("nothing is to be parsed"),
        |_, _| panic!("nothing is to be written"),
    )
    .map(|value| *value);
    assert_eq!(found, Err(Error::HomeUnset));
    let found = cache.with_file("formula.json").get_or_init_json(
        |_| None,
        || Ok("[]".to_string()),
        |text| Ok(text.len()),
        |_, _| Err(Error::NoWorkToDo),
    )
    .map(|value| *value);
    assert_eq!(found, Err(Error::NoWorkToDo));
    assert!(!cache.holds());
}

fn at(secs: u64, nanos: u32) -> Timestamp {
    Timestamp { secs, nanos }
}

#[test]
fn a_file_is_fresh_for_a_day() {
    assert_eq!(DISK_CACHE_TIMEOUT, 24 * 3600);
    let written = at(1_700_000_000, 500);
    assert!(is_fresh(written, written));
    assert!(is_fresh(at(1_700_000_001, 0), written));
    assert!(is_fresh(at(1_700_086_400, 499), written));
    assert!(!is_fresh(at(1_700_086_400, 500), written));
    assert!(!is_fresh(at(1_700_086_401, 0), written));
    assert!(!is_fresh(at(1_800_000_000, 0), written));
}

#[test]
fn a_file_from_the_future_is_not_fresh() {
    assert!(!is_fresh(at(1_700_000_000, 499), at(1_700_000_000, 500)));
    assert!(!is_fresh(at(1_699_999_999, 999_999_999), at(1_700_000_000, 0)));
    assert!(!is_fresh(at(0, 0), at(u64::MAX, 999_999_999)));
    assert!(!is_fresh(at(u64::MAX, 0), at(0, 0)));
}

#[test]
fn directories_follow_the_environment() {
    let home: Option<&[u8]> = Some(b"/home/me");
    assert_eq!(bin_dir(Some(b"/opt/bin"), home), Ok(b"/opt/bin".to_vec()));
    assert_eq!(bin_dir(Some(b"/opt/bin"), None), Ok(b"/opt/bin".to_vec()));
    assert_eq!(cache_dir(Some(b"/var/cache"), home), Ok(b"/var/cache/chug".to_vec()));
    assert_eq!(data_dir(Some(b"/var/data/"), None), Ok(b"/var/data/chug".to_vec()));
}

#[test]
fn directories_fall_back_on_home() {
    let home: Option<&[u8]> = Some(b"/home/me");
    assert_eq!(bin_dir(None, home), Ok(b"/home/me/.local/bin".to_vec()));
    assert_eq!(cache_dir(None, home), Ok(b"/home/me/.cache/chug".to_vec()));
    assert_eq!(data_dir(None, home), Ok(b"/home/me/.local/share/chug".to_vec()));
}

#[test]
fn directories_need_home_or_their_own_variable() {
    assert_eq!(bin_dir(None, None), Err(Error::HomeUnset));
    assert_eq!(cache_dir(None, None), Err(Error::HomeUnset));
    assert_eq!(data_dir(None, None), Err(Error::HomeUnset));
}

#[test]
fn directories_below_the_data_directory() {
    assert_eq!(bottles_dir(b"/home/me/.local/share/chug"), b"/home/me/.local/share/chug/bottles".to_vec());
    assert_eq!(opt_dir(b"/d"), b"/d/opt".to_vec());
    assert_eq!(etc_dir(b"/d/"), b"/d/etc".to_vec());
}

fn items(list: &[&str]) -> Vec<String> {
    list.iter().map(|item| item.to_string()).collect()
}

#[test]
fn a_list_is_laid_out_in_lines() {
    assert!(layout_list(&items(&[]), 80).is_empty());
    assert_eq!(layout_list(&items(&["gh 2.40.0"]), 80), vec!["  gh 2.40.0".to_string()]);
    assert_eq!(
        layout_list(&items(&["aaaa", "bbbb", "cccc", "dd"]), 16),
        vec!["  aaaa, bbbb,".to_string(), "  cccc, dd".to_string()]
    );
    // An item that is too long for a line has a line of its own.
    assert_eq!(
        layout_list(&items(&["a", "bbbbbbbbbbbbbbbbbbbb", "c"]), 10),
        vec!["  a,".to_string(), "  bbbbbbbbbbbbbbbbbbbb,".to_string(), "  c".to_string()]
    );
    assert_eq!(layout_list(&items(&["a", "b"]), 0), vec!["  a,".to_string(), "  b".to_string()]);
}

#[test]
fn a_line_keeps_room_for_its_comma() {
    // "  aaaa, bbbb" takes twelve columns, and is followed by a comma.
    assert_eq!(layout_list(&items(&["aaaa", "bbbb"]), 13), vec!["  aaaa, bbbb".to_string()]);
    assert_eq!(
        layout_list(&items(&["aaaa", "bbbb"]), 12),
        vec!["  aaaa,".to_string(), "  bbbb".to_string()]
    );
    // Columns are counted in bytes.
    assert_eq!(
        layout_list(&items(&["éééé", "b"]), 13),
        vec!["  éééé,".to_string(), "  b".to_string()]
    );
}

#[test]
fn output_is_never_wider_than_eighty_columns() {
    assert_eq!(output_width(None), 80);
    assert_eq!(output_width(Some(40)), 40);
    assert_eq!(output_width(Some(80)), 80);
    assert_eq!(output_width(Some(200)), 80);
    assert_eq!(output_width(Some(0)), 0);
}

struct Sized(u64);

impl ContentLength for Sized {
    fn content_length(&self) -> u64 {
        self.0
    }
}

fn length_of(stream: impl ContentLength) -> u64 {
    stream.content_length()
}

#[test]
fn a_borrowed_stream_has_the_length_of_the_stream() {
    let mut small = Sized(0);
    let mut large = Sized(u64::MAX);
    let mut other = Sized(1_234_567);
    assert_eq!(length_of(&mut small), 0);
    assert_eq!(length_of(&mut large), u64::MAX);
    assert_eq!(length_of(&mut other), 1_234_567);
    assert_eq!(length_of(other), 1_234_567);
}
