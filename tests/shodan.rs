use lazyscan::shodan::{host_url, module_scripts, page_count, search_url, write_decimal, Host, Response, Search};

#[test]
fn host_url_is_dotted_quad() {
    assert_eq!(host_url(0x7f000001), "http://127.0.0.1");
    assert_eq!(host_url(0), "http://0.0.0.0");
    assert_eq!(host_url(u32::MAX), "http://255.255.255.255");
    assert_eq!(host_url(0x0a00fe10), "http://10.0.254.16");
}

#[test]
fn decimal_has_no_leading_zeros() {
    let mut s = String::from("n=");
    write_decimal(1205, &mut s);
    assert_eq!(s, "n=1205");
    let mut z = String::new();
    write_decimal(0, &mut z);
    assert_eq!(z, "0");
    let mut m = String::new();
    write_decimal(u64::MAX, &mut m);
    assert_eq!(m, "18446744073709551615");
}

#[test]
fn search_url_carries_key_query_and_page() {
    assert_eq!(
        search_url("SECRET-REDACTED", "apache", 3),
        "https://api.shodan.io/shodan/host/search?key=SECRET-REDACTED&query=apache&page=3&facets=country"
    );
}

#[test]
fn pages_are_full_hundreds() {
    assert_eq!(page_count(0), 0);
    assert_eq!(page_count(99), 0);
    assert_eq!(page_count(100), 1);
    assert_eq!(page_count(1234), 12);
}

#[test]
fn error_response_carries_no_page() {
    let ok = Response::Success { search: Search { hosts: vec![Host { ip: 1 }], total: 1 } };
    assert!(ok.into_search().is_some());
    let err = Response::Error { error: "no more results".to_string() };
    assert!(err.into_search().is_none());
}

#[test]
fn module_scripts_sit_in_the_modules_directory() {
    assert_eq!(
        module_scripts(&vec!["ssh".to_string(), "ftp_anon".to_string()]),
        vec!["modules/ssh.py".to_string(), "modules/ftp_anon.py".to_string()]
    );
    assert_eq!(module_scripts(&vec![]), Vec::<String>::new());
}
