//! The work of a crawl worker on one URL: scan the response, resolve the
//! links of its body, and hand them to the frontier.
use vstd::prelude::*;

use reqwest::header::HeaderMap;

use crate::frontier::{push_all, QueueState};
use crate::scan::{matching, Scanner};
use crate::target::server_text;
use crate::text::{chars_of, strings};

verus! {

/// The `href` values of the `a` elements of the HTML document `body`, in
/// the order in which the parser created the elements.
pub uninterp spec fn hrefs_of(body: Seq<char>) -> Seq<Seq<char>>;

/// Relies on scraper: `Html::parse_document` reads `body` as an HTML
/// document, `select` walks its `a` elements in the order the parser created
/// them, and `attr` gives the `href` of each that has one.
#[verifier::external_body]
fn anchor_hrefs(body: &str) -> (r: Vec<String>)
    ensures
        strings(r@) == hrefs_of(body@),
{
    match scraper::Selector::parse("a") {
        Ok(selector) => scraper::Html::parse_document(body)
            .select(&selector)
            .filter_map(|element| element.attr("href"))
            .map(|href| href.to_string())
            .collect(),
        Err(_) => Vec::new(),
    }
}

/// How many `/` open `p`.
pub open spec fn leading_slashes(p: Seq<char>) -> nat
    decreases p.len(),
{
    if p.len() > 0 && p[0] == '/' {
        1 + leading_slashes(p.drop_first())
    } else {
        0
    }
}

/// The URL that the link `path` found on the page `base` stands for: an
/// `https://` link as it is, any other joined to the base by one `/` once
/// its own leading slashes are gone.
pub open spec fn resolve(base: Seq<char>, path: Seq<char>) -> Seq<char> {
    if "https://"@.is_prefix_of(path) {
        path
    } else {
        base + "/"@ + path.skip(leading_slashes(path) as int)
    }
}

/// Whether `p` opens `v`.
fn starts_with(v: &Vec<char>, p: &Vec<char>) -> (r: bool)
    ensures
        r == p@.is_prefix_of(v@),
{
    if p.len() > v.len() {
        return false;
    }
    let mut i: usize = 0;
    while i < p.len()
        invariant
            i <= p.len() <= v.len(),
            forall|j: int| 0 <= j < i ==> p@[j] == v@[j],
        decreases p.len() - i,
    {
        if p[i] != v[i] {
            proof {
                if p@.is_prefix_of(v@) {
                    assert(p@[i as int] == v@.subrange(0, p.len() as int)[i as int]);
                }
            }
            return false;
        }
        i = i + 1;
    }
    assert(p@ =~= v@.subrange(0, p.len() as int));
    true
}

/// The URL that the link `path` found on the page `base` stands for.
pub fn encode(base: &str, path: &str) -> (r: String)
    ensures
        r@ == resolve(base@, path@),
{
    let p = chars_of(path);
    let https = chars_of("https://");
    if starts_with(&p, &https) {
        return path.to_owned();
    }
    let mut i: usize = 0;
    proof {
        assert(p@.skip(0) =~= p@);
    }
    while i < p.len() && p[i] == '/'
        invariant
            i <= p.len(),
            leading_slashes(p@) == i + leading_slashes(p@.skip(i as int)),
        decreases p.len() - i,
    {
        assert(p@.skip(i as int).drop_first() =~= p@.skip(i + 1));
        i = i + 1;
    }
    assert(leading_slashes(p@.skip(i as int)) == 0);
    let mut r = base.to_owned();
    r.append("/");
    r.append(path.substring_char(i, p.len()));
    proof {
        assert(p@.subrange(i as int, p.len() as int) =~= p@.skip(i as int));
    }
    r
}

/// The URLs that the links `hrefs` found on the page `base` stand for.
pub fn resolve_all(base: &str, hrefs: &Vec<String>) -> (r: Vec<String>)
    ensures
        strings(r@) == strings(hrefs@).map_values(|h: Seq<char>| resolve(base@, h)),
{
    let mut r: Vec<String> = Vec::new();
    let mut i: usize = 0;
    while i < hrefs.len()
        invariant
            i <= hrefs.len(),
            strings(r@) == strings(hrefs@).take(i as int).map_values(
                |h: Seq<char>| resolve(base@, h),
            ),
        decreases hrefs.len() - i,
    {
        let u = encode(base, hrefs[i].as_str());
        proof {
            r@.lemma_push_map_commute(|s: String| s@, u);
        }
        r.push(u);
        i = i + 1;
        assert(strings(r@) =~= strings(hrefs@).take(i as int).map_values(
            |h: Seq<char>| resolve(base@, h),
        ));
    }
    assert(strings(hrefs@).take(hrefs.len() as int) =~= strings(hrefs@));
    r
}

/// The URLs that the links of the HTML document `body`, found at `base`,
/// stand for.
pub fn links(base: &str, body: &str) -> (r: Vec<String>)
    ensures
        strings(r@) == hrefs_of(body@).map_values(|h: Seq<char>| resolve(base@, h)),
{
    let hrefs = anchor_hrefs(body);
    resolve_all(base, &hrefs)
}

/// A fetched response: its headers and its body.
pub struct Fetched {
    pub headers: HeaderMap,
    pub body: String,
}

/// What a worker does with one URL: the places of the rules that matched,
/// and the links to push onto the frontier.
pub struct JobStep {
    pub matches: Vec<usize>,
    pub links: Vec<String>,
}

/// The body of a fetch, when it succeeded.
pub open spec fn body_of(fetched: Option<&Fetched>) -> Option<Seq<char>> {
    match fetched {
        Some(f) => Some(f.body@),
        None => None,
    }
}

/// The links that processing `url` pushes: those of the body when the
/// fetch succeeded, none when it failed.
pub open spec fn step_links(url: Seq<char>, body: Option<Seq<char>>) -> Seq<Seq<char>> {
    match body {
        Some(b) => hrefs_of(b).map_values(|h: Seq<char>| resolve(url, h)),
        None => Seq::empty(),
    }
}

/// Decides what to do with `url` once its fetch is over: on success, scan
/// the headers and resolve the links of the body; on failure, nothing.
pub fn process(scanner: &Scanner, url: &str, fetched: Option<&Fetched>) -> (r: JobStep)
    ensures
        strings(r.links@) == step_links(url@, body_of(fetched)),
        r.matches@ == match fetched {
            Some(f) => matching(scanner@, server_text(f.headers)),
            None => Seq::empty(),
        },
{
    match fetched {
        Some(f) => JobStep {
            matches: scanner.scan(&f.headers),
            links: links(url, f.body.as_str()),
        },
        None => {
            let r = JobStep { matches: Vec::new(), links: Vec::new() };
            assert(strings(r.links@) =~= Seq::<Seq<char>>::empty());
            r
        },
    }
}

/// The frontier after a worker has processed `steps` in turn, each a URL
/// and the body of its fetch, if it succeeded.
pub open spec fn run_steps(s: QueueState, steps: Seq<(Seq<char>, Option<Seq<char>>)>) -> QueueState
    decreases steps.len(),
{
    if steps.len() == 0 {
        s
    } else {
        push_all(run_steps(s, steps.drop_last()), step_links(steps.last().0, steps.last().1))
    }
}

/// The links of the successful fetches among `steps`, in order.
pub open spec fn fetched_links(steps: Seq<(Seq<char>, Option<Seq<char>>)>) -> Seq<Seq<char>>
    decreases steps.len(),
{
    if steps.len() == 0 {
        Seq::empty()
    } else {
        fetched_links(steps.drop_last()) + step_links(steps.last().0, steps.last().1)
    }
}

proof fn lemma_push_all_append(s: QueueState, a: Seq<Seq<char>>, b: Seq<Seq<char>>)
    ensures
        push_all(push_all(s, a), b) == push_all(s, a + b),
    decreases b.len(),
{
    if b.len() == 0 {
        assert(a + b =~= a);
    } else {
        lemma_push_all_append(s, a, b.drop_last());
        assert((a + b).drop_last() =~= a + b.drop_last());
        assert((a + b).last() == b.last());
    }
}

proof fn lemma_only_successes(steps: Seq<(Seq<char>, Option<Seq<char>>)>)
    ensures
        fetched_links(steps) == fetched_links(
            steps.filter(|st: (Seq<char>, Option<Seq<char>>)| st.1 is Some),
        ),
    decreases steps.len(),
{
    let ok = |st: (Seq<char>, Option<Seq<char>>)| st.1 is Some;
    if steps.len() > 0 {
        lemma_only_successes(steps.drop_last());
        reveal(Seq::filter);
        let kept = steps.drop_last().filter(ok);
        if ok(steps.last()) {
            assert(steps.filter(ok) == kept.push(steps.last()));
            assert(kept.push(steps.last()).drop_last() =~= kept);
        } else {
            assert(steps.filter(ok) == kept);
            assert(fetched_links(steps) =~= fetched_links(steps.drop_last()));
        }
    }
}

/// Fetch failure isolation: a worker that processes a batch of URLs pushes
/// exactly the links of the fetches that succeeded; a failed fetch adds
/// nothing and takes nothing away from the others, so the frontier ends as
/// if the failed URLs had never been in the batch.
pub proof fn law_fetch_failure_isolation(
    s: QueueState,
    steps: Seq<(Seq<char>, Option<Seq<char>>)>,
)
    ensures
        run_steps(s, steps) == push_all(s, fetched_links(steps)),
        run_steps(s, steps) == run_steps(
            s,
            steps.filter(|st: (Seq<char>, Option<Seq<char>>)| st.1 is Some),
        ),
    decreases steps.len(),
{
    let ok = |st: (Seq<char>, Option<Seq<char>>)| st.1 is Some;
    if steps.len() > 0 {
        law_fetch_failure_isolation(s, steps.drop_last());
        let last = steps.last();
        lemma_push_all_append(s, fetched_links(steps.drop_last()), step_links(last.0, last.1));
    }
    let kept = steps.filter(ok);
    lemma_only_successes(steps);
    if kept.len() > 0 {
        law_fetch_failure_isolation(s, kept.drop_last());
        let last = kept.last();
        lemma_push_all_append(s, fetched_links(kept.drop_last()), step_links(last.0, last.1));
    }
}

} // verus!
