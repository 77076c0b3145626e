use lazyscan::scan::Scanner;
use lazyscan::target::{canonical_server, server, script_paths, Target, TargetOptions};
use lazyscan::version::Epoch;
use reqwest::header::{HeaderMap, HeaderValue, SERVER};

fn opts(version: &str, modules: &[&str]) -> TargetOptions {
    TargetOptions {
        version: version.to_string(),
        modules: modules.iter().map(|m| m.to_string()).collect(),
        misconfig: false,
    }
}

fn headers(server_value: &str) -> HeaderMap {
    let mut h = HeaderMap::new();
    h.insert(SERVER, HeaderValue::from_str(server_value).unwrap());
    h
}

#[test]
fn known_server_names_are_canonical_in_any_case() {
    assert_eq!(server("APACHE"), "Apache");
    assert_eq!(server("apache"), "Apache");
    assert_eq!(server("NgInX"), "nginx");
    assert_eq!(server("Caddy"), "Caddy");
    assert_eq!(canonical_server("APACHE", "apache"), "Apache");
    assert_eq!(canonical_server("Lighttpd", "lighttpd"), "Lighttpd");
}

#[test]
fn target_takes_its_options() {
    let mut o = opts("2.4.49", &["cve"]);
    o.misconfig = true;
    let t = Target::new("apache", &o);
    assert_eq!(t.name(), "Apache");
    assert!(t.misconfig());
    assert_eq!(t.version().epochs, vec![Epoch::Point(2), Epoch::Point(4), Epoch::Point(49)]);
}

#[test]
fn header_with_matching_version_matches() {
    let t = Target::new("apache", &opts("2.4.49", &[]));
    assert!(t.verify_header("Apache/2.4.49 (Unix)"));
    assert!(t.verify_header("Apache/2.4.49"));
    assert!(!t.verify_header("Apache/2.4.50 (Unix)"));
    assert!(!t.verify_header("nginx/2.4.49"));
    assert!(!t.verify_header("Apache 2.4.49"));
    assert!(!t.verify_header("Apache"));
    assert!(!t.verify_header(""));
}

#[test]
fn scan_reads_the_server_header() {
    let t = Target::new("nginx", &opts("1.18-20.0", &[]));
    assert!(t.scan(&headers("nginx/1.19.0")));
    assert!(!t.scan(&headers("nginx/1.20.0")));
    assert!(!t.scan(&HeaderMap::new()));
    let mut h = HeaderMap::new();
    h.insert("x-other", HeaderValue::from_static("nginx/1.19.0"));
    assert!(!t.scan(&h));
}

#[test]
fn scan_uses_the_first_server_value() {
    let t = Target::new("nginx", &opts("1.19.0", &[]));
    let mut h = headers("nginx/1.19.0");
    h.append(SERVER, HeaderValue::from_static("nginx/9.9.9"));
    assert!(t.scan(&h));
    let mut h2 = headers("nginx/9.9.9");
    h2.append(SERVER, HeaderValue::from_static("nginx/1.19.0"));
    assert!(!t.scan(&h2));
}

#[test]
fn header_that_is_not_text_never_matches() {
    let t = Target::new("nginx", &opts("1.19.0", &[]));
    let mut h = HeaderMap::new();
    h.insert(SERVER, HeaderValue::from_bytes(b"nginx/1.19.0 \xff").unwrap());
    assert!(!t.scan(&h));
}

#[test]
fn module_scripts_live_under_the_lower_case_server() {
    let t = Target::new("apache", &opts("2.4.49", &["path_traversal", "rce"]));
    assert_eq!(
        t.scripts(),
        vec!["modules/apache/path_traversal.py".to_string(), "modules/apache/rce.py".to_string()]
    );
    assert_eq!(script_paths("x", &vec!["m".to_string()]), vec!["modules/x/m.py".to_string()]);
}

#[test]
fn scanner_skips_unknown_names_and_reports_matches_in_order() {
    let table = vec![
        ("nginx".to_string(), opts("1.19.0", &[])),
        ("apache".to_string(), opts("2.4.49", &[])),
        ("apache".to_string(), opts("9.9.9", &[])),
    ];
    let names = vec!["apache".to_string(), "iis".to_string(), "nginx".to_string()];
    let sc = Scanner::new(&names, &table);
    assert_eq!(sc.len(), 2);
    assert_eq!(sc.target(0).name(), "Apache");
    assert_eq!(sc.target(1).name(), "nginx");
    assert_eq!(sc.scan(&headers("Apache/2.4.49 (Debian)")), vec![0]);
    assert_eq!(sc.scan(&headers("nginx/1.19.0")), vec![1]);
    assert_eq!(sc.scan(&headers("Apache/2.4.50")), Vec::<usize>::new());
    assert_eq!(sc.matches(None), Vec::<usize>::new());
}

#[test]
fn scanner_applies_every_rule() {
    let table = vec![
        ("a".to_string(), opts("1.0", &[])),
        ("b".to_string(), opts("0-5.0-5", &[])),
    ];
    let sc = Scanner::new(&vec!["a".to_string(), "b".to_string()], &table);
    assert_eq!(sc.matches(Some("a/1.0")), vec![0]);
    let table2 = vec![("a".to_string(), opts("1.0", &[])), ("x".to_string(), opts("0-5.0-5", &[]))];
    let sc2 = Scanner::new(&vec!["a".to_string(), "x".to_string(), "a".to_string()], &table2);
    assert_eq!(sc2.matches(Some("a/1.0")), vec![0, 2]);
}

#[test]
fn version_without_numbers_never_matches() {
    let t = Target::new("apache", &opts("not a version", &[]));
    assert!(t.version().epochs.is_empty());
    assert!(!t.verify_header("Apache/beta"));
    assert!(!t.verify_header("Apache/"));
}
