use lazyscan::frontier::{Drain, MemoryQueue, Queue};
use lazyscan::job::{encode, links, process, resolve_all, Fetched};
use lazyscan::scan::Scanner;
use lazyscan::target::TargetOptions;
use reqwest::header::{HeaderMap, HeaderValue, SERVER};

#[test]
fn relative_link_is_joined_to_the_base() {
    assert_eq!(encode("http://a.com", "y"), "http://a.com/y");
    assert_eq!(encode("http://a.com", "/y"), "http://a.com/y");
    assert_eq!(encode("http://a.com", "///y"), "http://a.com/y");
    assert_eq!(encode("http://a.com/x", "y"), "http://a.com/x/y");
    assert_eq!(encode("http://a.com/x", "/y"), "http://a.com/x/y");
}

#[test]
fn https_link_passes_through() {
    assert_eq!(encode("http://a.com/x", "https://b.com/z"), "https://b.com/z");
    assert_eq!(encode("http://a.com", "http://b.com/z"), "http://a.com/http://b.com/z");
}

#[test]
fn resolve_all_keeps_order() {
    let hrefs = vec!["a".to_string(), "https://c.org".to_string()];
    assert_eq!(
        resolve_all("http://h", &hrefs),
        vec!["http://h/a".to_string(), "https://c.org".to_string()]
    );
}

#[test]
fn links_come_from_anchor_hrefs_in_document_order() {
    let body = "<html><body><a href=\"/one\">1</a><p><a href=\"https://x.org/\">2</a></p>\
                <a>no href</a><link href=\"style.css\"><a href=\"two\">3</a></body></html>";
    assert_eq!(
        links("http://a.com", body),
        vec![
            "http://a.com/one".to_string(),
            "https://x.org/".to_string(),
            "http://a.com/two".to_string(),
        ]
    );
    assert_eq!(links("http://a.com", "no markup at all"), Vec::<String>::new());
}

fn scanner() -> Scanner {
    let table = vec![(
        "apache".to_string(),
        TargetOptions { version: "2.4.49".to_string(), modules: vec![], misconfig: false },
    )];
    Scanner::new(&vec!["apache".to_string()], &table)
}

fn fetched(server: &str, body: &str) -> Fetched {
    let mut headers = HeaderMap::new();
    headers.insert(SERVER, HeaderValue::from_str(server).unwrap());
    Fetched { headers, body: body.to_string() }
}

#[test]
fn failed_fetch_does_nothing() {
    let step = process(&scanner(), "http://a.com", None);
    assert!(step.matches.is_empty());
    assert!(step.links.is_empty());
}

#[test]
fn successful_fetch_scans_and_finds_links() {
    let f = fetched("Apache/2.4.49 (Unix)", "<a href=\"next\">n</a>");
    let step = process(&scanner(), "http://a.com", Some(&f));
    assert_eq!(step.matches, vec![0]);
    assert_eq!(step.links, vec!["http://a.com/next".to_string()]);
}

#[test]
fn one_failed_fetch_in_five_leaves_the_others() {
    let sc = scanner();
    let mut q = MemoryQueue::new(vec![]);
    let pages: Vec<(String, Option<Fetched>)> = (0..5)
        .map(|i| {
            let url = format!("http://h{}.com", i);
            let body = format!("<a href=\"https://n{}.com/\">x</a>", i);
            let f = if i == 2 { None } else { Some(fetched("Apache/2.4.49", &body)) };
            (url, f)
        })
        .collect();
    let mut scanned = 0;
    for (url, f) in pages.iter() {
        let step = process(&sc, url, f.as_ref());
        scanned += step.matches.len();
        q.extend(step.links);
    }
    assert_eq!(scanned, 4);
    let mut d = q.drain().ok().unwrap();
    assert_eq!(d.len(), 4);
    let mut got = Vec::new();
    while let Some(u) = d.pop() {
        got.push(u);
    }
    got.sort();
    assert_eq!(
        got,
        vec![
            "https://n0.com/".to_string(),
            "https://n1.com/".to_string(),
            "https://n3.com/".to_string(),
            "https://n4.com/".to_string(),
        ]
    );
}
