//! The host-search source: its result pages and the URLs built from them.
use vstd::prelude::*;

use crate::text::strings;

verus! {

/// A host that a search returned, by its IPv4 address.
pub struct Host {
    pub ip: u32,
}

/// One page of search results, and how many results the query has.
pub struct Search {
    pub hosts: Vec<Host>,
    pub total: usize,
}

/// What the search service answers: a page, or an error once the pages
/// run out.
pub enum Response {
    Success { search: Search },
    Error { error: String },
}

impl Response {
    /// The page that the answer carries; an error carries none.
    pub fn into_search(self) -> (r: Option<Search>)
        ensures
            match self {
                Response::Success { search } => r == Some(search),
                Response::Error { .. } => r is None,
            },
    {
        match self {
            Response::Success { search } => Some(search),
            Response::Error { .. } => None,
        }
    }
}

/// Results come a hundred to a page.
pub const PAGE_SIZE: usize = 100;

/// How many pages the search walks for a query with `total` results: one
/// per full hundred.
pub fn page_count(total: usize) -> (r: usize)
    ensures
        r == total / 100,
{
    total / PAGE_SIZE
}

pub open spec fn digit_char(d: nat) -> char {
    if d == 0 {
        '0'
    } else if d == 1 {
        '1'
    } else if d == 2 {
        '2'
    } else if d == 3 {
        '3'
    } else if d == 4 {
        '4'
    } else if d == 5 {
        '5'
    } else if d == 6 {
        '6'
    } else if d == 7 {
        '7'
    } else if d == 8 {
        '8'
    } else {
        '9'
    }
}

/// The decimal digits of `n`, without leading zeros.
pub open spec fn decimal(n: nat) -> Seq<char>
    decreases n,
{
    if n < 10 {
        seq![digit_char(n)]
    } else {
        decimal(n / 10).push(digit_char(n % 10))
    }
}

fn digit_text(d: u64) -> (r: &'static str)
    requires
        d < 10,
    ensures
        r@ == seq![digit_char(d as nat)],
{
    proof {
        reveal_strlit("0");
        reveal_strlit("1");
        reveal_strlit("2");
        reveal_strlit("3");
        reveal_strlit("4");
        reveal_strlit("5");
        reveal_strlit("6");
        reveal_strlit("7");
        reveal_strlit("8");
        reveal_strlit("9");
    }
    if d == 0 {
        "0"
    } else if d == 1 {
        "1"
    } else if d == 2 {
        "2"
    } else if d == 3 {
        "3"
    } else if d == 4 {
        "4"
    } else if d == 5 {
        "5"
    } else if d == 6 {
        "6"
    } else if d == 7 {
        "7"
    } else if d == 8 {
        "8"
    } else {
        "9"
    }
}

/// Appends the decimal digits of `n` to `out`.
pub fn write_decimal(n: u64, out: &mut String)
    ensures
        final(out)@ == old(out)@ + decimal(n as nat),
    decreases n,
{
    if n >= 10 {
        write_decimal(n / 10, out);
    }
    out.append(digit_text(n % 10));
    assert(final(out)@ =~= old(out)@ + decimal(n as nat));
}

/// The dotted-quad text of an IPv4 address, most significant byte first.
pub open spec fn dotted(ip: nat) -> Seq<char> {
    decimal(ip / 16777216) + "."@ + decimal((ip / 65536) % 256) + "."@ + decimal((ip / 256) % 256)
        + "."@ + decimal(ip % 256)
}

/// The URL of the web server of a host.
pub fn host_url(ip: u32) -> (r: String)
    ensures
        r@ == "http://"@ + dotted(ip as nat),
{
    let mut r = "http://".to_owned();
    write_decimal((ip / 16777216) as u64, &mut r);
    r.append(".");
    write_decimal(((ip / 65536) % 256) as u64, &mut r);
    r.append(".");
    write_decimal(((ip / 256) % 256) as u64, &mut r);
    r.append(".");
    write_decimal((ip % 256) as u64, &mut r);
    assert(r@ =~= "http://"@ + dotted(ip as nat));
    r
}

/// The URL that asks the search service for page `page` of `query`.
pub fn search_url(key: &str, query: &str, page: usize) -> (r: String)
    ensures
        r@ == "https://api.shodan.io/shodan/host/search?key="@ + key@ + "&query="@ + query@
            + "&page="@ + decimal(page as nat) + "&facets=country"@,
{
    let mut r = "https://api.shodan.io/shodan/host/search?key=".to_owned();
    r.append(key);
    r.append("&query=");
    r.append(query);
    r.append("&page=");
    write_decimal(page as u64, &mut r);
    r.append("&facets=country");
    assert(r@ =~= "https://api.shodan.io/shodan/host/search?key="@ + key@ + "&query="@ + query@
        + "&page="@ + decimal(page as nat) + "&facets=country"@);
    r
}

/// The path of the script of a follow-up module run on every host found.
pub open spec fn module_script(module: Seq<char>) -> Seq<char> {
    "modules/"@ + module + ".py"@
}

/// The script paths of the follow-up modules `modules`, in order.
pub fn module_scripts(modules: &Vec<String>) -> (r: Vec<String>)
    ensures
        strings(r@) == strings(modules@).map_values(|m: Seq<char>| module_script(m)),
{
    let mut r: Vec<String> = Vec::new();
    let mut i: usize = 0;
    while i < modules.len()
        invariant
            i <= modules.len(),
            strings(r@) == strings(modules@).take(i as int).map_values(
                |m: Seq<char>| module_script(m),
            ),
        decreases modules.len() - i,
    {
        let mut path = "modules/".to_owned();
        path.append(modules[i].as_str());
        path.append(".py");
        proof {
            r@.lemma_push_map_commute(|s: String| s@, path);
        }
        r.push(path);
        i = i + 1;
        assert(strings(r@) =~= strings(modules@).take(i as int).map_values(
            |m: Seq<char>| module_script(m),
        ));
    }
    assert(strings(modules@).take(modules.len() as int) =~= strings(modules@));
    r
}

} // verus!
