use optdeps::block::{locate_block, MetadataError, NONE_SENTINEL};
use optdeps::entry::{filter_entries, filter_optional_dependencies, parse_entries, parse_entry};
use optdeps::report::{list_query_flags, package_report, run, FilterOptions, PackageMetadata};

const BLOCK: &str =
    "networkmanager: Location detection [installed]\nlibnotify: Notify [installed]\nspeech-dispatcher: TTS";

fn firefox() -> String {
    String::from(
        "Name            : firefox\n\
         Depends On      : gtk3  libxt  mime-types  dbus-glib  ffmpeg  nss  ttf-font  libpulse\n\
         Optional Deps   : networkmanager: Location detection via available WiFi networks [installed]\n\
         \x20                 libnotify: Notification integration [installed]\n\
         \x20                 pulseaudio: Audio support [installed]\n\
         \x20                 speech-dispatcher: Text-to-Speech\n\
         \x20                 hunspell-en_US: Spell checking, American English\n\
         Required By     : None\n\
         Optional For    : None\n",
    )
}

fn no_deps() -> String {
    String::from("Name            : zlib\nOptional Deps   : None\nRequired By     : glibc\n")
}

fn options(include_installed: bool) -> FilterOptions {
    FilterOptions { only_explicit: false, include_installed }
}

fn package(name: &str, details: &str) -> PackageMetadata {
    PackageMetadata { name: String::from(name), details: String::from(details) }
}

#[test]
fn installed_entries_left_out_by_default() {
    let r = filter_optional_dependencies(String::from(BLOCK), false);
    assert_eq!(r, vec![String::from("speech-dispatcher: TTS")]);
}

#[test]
fn installed_entries_kept_on_request() {
    let r = filter_optional_dependencies(String::from(BLOCK), true);
    assert_eq!(
        r,
        vec![
            String::from("networkmanager: Location detection [installed]"),
            String::from("libnotify: Notify [installed]"),
            String::from("speech-dispatcher: TTS"),
        ]
    );
}

#[test]
fn sentinel_block_reports_nothing() {
    for inc in [false, true] {
        assert_eq!(package_report(&no_deps(), inc), Ok(Vec::new()));
        let r = run(&options(inc), &vec![package("zlib", &no_deps())]).unwrap();
        assert!(r.is_empty());
    }
    assert_eq!(NONE_SENTINEL, "None");
}

#[test]
fn sentinel_with_surrounding_whitespace() {
    let details = "Optional Deps   :    None  \r\n  \nRequired By     : x\n";
    assert_eq!(package_report(details, true), Ok(Vec::new()));
}

#[test]
fn missing_terminating_label_aborts_run() {
    let broken = "Name            : broken\nOptional Deps   : foo: bar\nConflicts With  : None\n";
    assert_eq!(package_report(broken, false), Err(MetadataError::MissingRequiredBy));
    let packages = vec![
        package("firefox", &firefox()),
        package("broken", broken),
        package("later", &firefox()),
    ];
    let err = run(&options(false), &packages).unwrap_err();
    assert_eq!(err.package, "broken");
    assert_eq!(err.reason, MetadataError::MissingRequiredBy);
    assert_eq!(err.index, 1);
    assert_eq!(err.reports.len(), 1);
    assert_eq!(err.reports[0].name, "firefox");
    assert_eq!(
        err.reports[0].dependencies,
        vec![
            String::from("speech-dispatcher: Text-to-Speech"),
            String::from("hunspell-en_US: Spell checking, American English"),
        ]
    );
}

#[test]
fn malformed_first_package_has_no_earlier_reports() {
    let broken = "Name            : broken\n";
    let err = run(&options(true), &vec![package("broken", broken), package("ff", &firefox())])
        .unwrap_err();
    assert_eq!(err.index, 0);
    assert_eq!(err.reason, MetadataError::MissingOptionalDeps);
    assert!(err.reports.is_empty());
}

#[test]
fn missing_label_is_malformed() {
    let details = "Name            : x\nRequired By     : None\n";
    assert_eq!(locate_block(details), Err(MetadataError::MissingOptionalDeps));
    assert_eq!(package_report(details, true), Err(MetadataError::MissingOptionalDeps));
}

#[test]
fn terminating_label_before_block_is_malformed() {
    let details = "Required By     : None\nOptional Deps   : foo: bar\n";
    assert_eq!(locate_block(details), Err(MetadataError::MissingRequiredBy));
}

#[test]
fn wrapped_entry_is_trimmed_and_installed() {
    let e = parse_entry("  pulseaudio: Audio support [installed]  ").unwrap();
    assert_eq!(e.text, "pulseaudio: Audio support [installed]");
    assert!(e.is_installed);
    assert!(parse_entry(" \t ").is_none());
    let e = parse_entry("\u{a0}speech-dispatcher: TTS\u{3000}").unwrap();
    assert_eq!(e.text, "speech-dispatcher: TTS");
    assert!(!e.is_installed);
}

#[test]
fn blank_and_crlf_lines() {
    let es = parse_entries("  a: x [installed]\r\n\n   \n b: y \r\n");
    assert_eq!(es.len(), 2);
    assert_eq!(es[0].text, "a: x [installed]");
    assert!(es[0].is_installed);
    assert_eq!(es[1].text, "b: y");
    assert!(!es[1].is_installed);
    assert!(parse_entries("").is_empty());
}

#[test]
fn run_twice_gives_same_reports() {
    let packages = vec![package("firefox", &firefox()), package("zlib", &no_deps())];
    let a = run(&options(false), &packages).unwrap();
    let b = run(&options(false), &packages).unwrap();
    assert_eq!(a.len(), 1);
    assert_eq!(a.len(), b.len());
    for (x, y) in a.iter().zip(b.iter()) {
        assert_eq!(x.name, y.name);
        assert_eq!(x.dependencies, y.dependencies);
    }
}

#[test]
fn more_reported_with_installed() {
    let without = package_report(&firefox(), false).unwrap();
    let with = package_report(&firefox(), true).unwrap();
    assert_eq!(without.len(), 2);
    assert_eq!(with.len(), 5);
    for d in &without {
        assert!(with.contains(d));
    }
}

#[test]
fn report_keeps_block_order() {
    let with = package_report(&firefox(), true).unwrap();
    assert_eq!(
        with,
        vec![
            String::from("networkmanager: Location detection via available WiFi networks [installed]"),
            String::from("libnotify: Notification integration [installed]"),
            String::from("pulseaudio: Audio support [installed]"),
            String::from("speech-dispatcher: Text-to-Speech"),
            String::from("hunspell-en_US: Spell checking, American English"),
        ]
    );
    let without = package_report(&firefox(), false).unwrap();
    assert_eq!(
        without,
        vec![
            String::from("speech-dispatcher: Text-to-Speech"),
            String::from("hunspell-en_US: Spell checking, American English"),
        ]
    );
}

#[test]
fn block_starts_at_last_label_and_stops_before_terminator() {
    let details = "Description     : mentions Optional Deps here\n\
                   Optional Deps   : a: b\n\
                   Required By     : None\n\
                   Optional For    : Required By\n";
    let block = locate_block(details).unwrap();
    assert_eq!(block, "Optional Deps   : a: b\n");
    assert!(!block.contains("Required By"));
    assert_eq!(package_report(details, false), Ok(vec![String::from("a: b")]));
}

#[test]
fn only_installed_entries_give_no_report() {
    let details = "Optional Deps   : a: b [installed]\nRequired By     : None\n";
    let r = run(&options(false), &vec![package("p", details)]).unwrap();
    assert!(r.is_empty());
    let r = run(&options(true), &vec![package("p", details)]).unwrap();
    assert_eq!(r.len(), 1);
    assert_eq!(r[0].name, "p");
    assert_eq!(r[0].dependencies, vec![String::from("a: b [installed]")]);
}

#[test]
fn filter_entries_policy() {
    let es = parse_entries(BLOCK);
    let kept = filter_entries(&es, false);
    assert_eq!(kept.len(), 1);
    assert_eq!(kept[0].text, "speech-dispatcher: TTS");
    assert_eq!(filter_entries(&es, true).len(), 3);
}

#[test]
fn query_flags() {
    assert_eq!(list_query_flags(false), "-Qq");
    assert_eq!(list_query_flags(true), "-Qqe");
}
