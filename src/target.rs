//! Target rules: a server name, a vulnerable version specification and the
//! follow-up modules to run on a match, judged against a response's
//! `Server` header.
use vstd::prelude::*;

use reqwest::header::{HeaderMap, HeaderValue};

use crate::frontier::opt_view;
use crate::text::{chars_of, clone_strings, lower_of, lowercase, split_chars, split_on, strings};
use crate::version::{version_contains, version_of, Epoch, Version};

verus! {

#[verifier::external_type_specification]
#[verifier::external_body]
#[verifier::reject_recursive_types(T)]
pub struct ExHeaderMap<T>(HeaderMap<T>);

#[verifier::external_type_specification]
#[verifier::external_body]
pub struct ExHeaderValue(HeaderValue);

/// What a header map holds: for each header name, in lower case, the bytes
/// of its values in the order they were added.
pub uninterp spec fn header_values(h: HeaderMap) -> Map<Seq<char>, Seq<Seq<u8>>>;

pub open spec fn server_field() -> Seq<char> {
    seq!['s', 'e', 'r', 'v', 'e', 'r']
}

pub open spec fn visible_ascii(b: u8) -> bool {
    (32 <= b && b < 127) || b == 9
}

/// The text of a header value, when each of its bytes is visible ASCII or a
/// tab.
pub open spec fn header_text(v: Seq<u8>) -> Option<Seq<char>> {
    if forall|i: int| 0 <= i < v.len() ==> #[trigger] visible_ascii(v[i]) {
        Some(v.map_values(|b: u8| b as char))
    } else {
        None
    }
}

/// The text of the first `server` value among the header values `m`, when
/// there is one and it reads as text.
pub open spec fn first_server_text(m: Map<Seq<char>, Seq<Seq<u8>>>) -> Option<Seq<char>> {
    if m.contains_key(server_field()) && m[server_field()].len() > 0 {
        header_text(m[server_field()][0])
    } else {
        None
    }
}

/// The text of the first `server` header of `h`, when there is one and it
/// reads as text.
pub open spec fn server_text(h: HeaderMap) -> Option<Seq<char>> {
    first_server_text(header_values(h))
}

/// Relies on `HeaderMap::get`, which gives the first value stored under a
/// name, and on `HeaderValue::to_str`, which succeeds when every byte is
/// visible ASCII or a tab.
#[verifier::external_body]
pub(crate) fn server_header(headers: &HeaderMap) -> (r: Option<String>)
    ensures
        opt_view(r) == first_server_text(header_values(*headers)),
{
    match headers.get(reqwest::header::SERVER) {
        Some(value) => match value.to_str() {
            Ok(text) => Some(text.to_string()),
            Err(_) => None,
        },
        None => None,
    }
}

/// How a target rule is configured.
pub struct TargetOptions {
    /// The vulnerable version specification, such as `2.4.46-52`.
    pub version: String,
    /// The follow-up modules to run on a match.
    pub modules: Vec<String>,
    /// Whether the rule also looks for a misconfiguration.
    pub misconfig: bool,
}

/// What a target rule holds.
pub ghost struct Rule {
    pub spec: Seq<Epoch>,
    pub server: Seq<char>,
    pub modules: Seq<Seq<char>>,
    pub misconfig: bool,
}

/// The server name that a rule called `name` looks for, given `lower`, the
/// name in lower case: the known servers are spelled as they announce
/// themselves, any other name stands as it is.
pub open spec fn server_for(name: Seq<char>, lower: Seq<char>) -> Seq<char> {
    if lower == "apache"@ {
        "Apache"@
    } else if lower == "nginx"@ {
        "nginx"@
    } else {
        name
    }
}

/// The rule that `name` and `options` configure.
pub open spec fn rule_of(name: Seq<char>, options: TargetOptions) -> Rule {
    Rule {
        spec: version_of(options.version@),
        server: server_for(name, lower_of(name)),
        modules: strings(options.modules@),
        misconfig: options.misconfig,
    }
}

/// The version text that a `Server` header value announces for `server`:
/// what follows `server/`, up to the first space.
pub open spec fn version_text(value: Seq<char>, server: Seq<char>) -> Option<Seq<char>> {
    let prefix = server.push('/');
    if prefix.is_prefix_of(value) {
        Some(split_on(value.skip(prefix.len() as int), ' ')[0])
    } else {
        None
    }
}

/// Whether the `Server` header value `value` names the rule's server with a
/// version inside its specification; a version without any number matches
/// nothing.
pub open spec fn header_matches(rule: Rule, value: Seq<char>) -> bool {
    match version_text(value, rule.server) {
        Some(t) => version_of(t).len() > 0 && version_contains(rule.spec, version_of(t)),
        None => false,
    }
}

/// Whether a response whose `Server` header reads `value` matches `rule`.
pub open spec fn rule_hit(rule: Rule, value: Option<Seq<char>>) -> bool {
    match value {
        Some(v) => header_matches(rule, v),
        None => false,
    }
}

/// The path of the script of module `module` for servers whose lower-case
/// name is `dir`.
pub open spec fn script_path(dir: Seq<char>, module: Seq<char>) -> Seq<char> {
    "modules/"@ + dir + "/"@ + module + ".py"@
}

/// The server name that a rule called `name` looks for, given the name in
/// lower case as `lower`.
pub fn canonical_server(name: &str, lower: &str) -> (r: String)
    ensures
        r@ == server_for(name@, lower@),
{
    if crate::text::same_text(lower, "apache") {
        "Apache".to_owned()
    } else if crate::text::same_text(lower, "nginx") {
        "nginx".to_owned()
    } else {
        name.to_owned()
    }
}

/// The server name that a rule called `name` looks for.
pub fn server(name: &str) -> (r: String)
    ensures
        r@ == server_for(name@, lower_of(name@)),
{
    let lower = lowercase(name);
    canonical_server(name, lower.as_str())
}

/// The script paths of `modules` for servers whose lower-case name is `dir`.
pub fn script_paths(dir: &str, modules: &Vec<String>) -> (r: Vec<String>)
    ensures
        strings(r@) == strings(modules@).map_values(|m: Seq<char>| script_path(dir@, m)),
{
    let mut r: Vec<String> = Vec::new();
    let mut i: usize = 0;
    while i < modules.len()
        invariant
            i <= modules.len(),
            strings(r@) == strings(modules@).take(i as int).map_values(
                |m: Seq<char>| script_path(dir@, m),
            ),
        decreases modules.len() - i,
    {
        let mut path = "modules/".to_owned();
        path.append(dir);
        path.append("/");
        path.append(modules[i].as_str());
        path.append(".py");
        proof {
            r@.lemma_push_map_commute(|s: String| s@, path);
        }
        r.push(path);
        i = i + 1;
        assert(strings(r@) =~= strings(modules@).take(i as int).map_values(
            |m: Seq<char>| script_path(dir@, m),
        ));
    }
    assert(strings(modules@).take(modules.len() as int) =~= strings(modules@));
    r
}

/// A target rule.
pub struct Target {
    version: Version,
    modules: Vec<String>,
    server: String,
    misconfig: bool,
}

impl View for Target {
    type V = Rule;

    closed spec fn view(&self) -> Rule {
        Rule {
            spec: self.version@,
            server: self.server@,
            modules: strings(self.modules@),
            misconfig: self.misconfig,
        }
    }
}

impl Target {
    /// The rule that `name` and `options` configure.
    pub fn new(name: &str, options: &TargetOptions) -> (r: Target)
        ensures
            r@ == rule_of(name@, *options),
    {
        Target {
            version: Version::parse(options.version.as_str()),
            modules: clone_strings(&options.modules),
            server: server(name),
            misconfig: options.misconfig,
        }
    }

    /// The server name the rule looks for.
    pub fn name(&self) -> (r: &str)
        ensures
            r@ == self@.server,
    {
        self.server.as_str()
    }

    pub fn misconfig(&self) -> (r: bool)
        ensures
            r == self@.misconfig,
    {
        self.misconfig
    }

    /// The version the rule looks for, parsed.
    pub fn version(&self) -> (r: &Version)
        ensures
            r@ == self@.spec,
    {
        &self.version
    }

    /// Whether the `Server` header value `value` matches the rule.
    pub fn verify_header(&self, value: &str) -> (r: bool)
        ensures
            r == header_matches(self@, value@),
    {
        let v = chars_of(value);
        let s = chars_of(self.server.as_str());
        if v.len() <= s.len() {
            assert(!s@.push('/').is_prefix_of(v@));
            return false;
        }
        let mut i: usize = 0;
        while i < s.len()
            invariant
                i <= s.len(),
                s.len() < v.len(),
                s@ == self@.server,
                v@ == value@,
                forall|j: int| 0 <= j < i ==> s@[j] == v@[j],
            decreases s.len() - i,
        {
            if s[i] != v[i] {
                proof {
                    let p = s@.push('/');
                    if p.is_prefix_of(v@) {
                        assert(p[i as int] == v@.subrange(0, p.len() as int)[i as int]);
                    }
                }
                return false;
            }
            i = i + 1;
        }
        if v[s.len()] != '/' {
            proof {
                let p = s@.push('/');
                if p.is_prefix_of(v@) {
                    assert(p[s.len() as int] == v@.subrange(0, p.len() as int)[s.len() as int]);
                }
            }
            return false;
        }
        assert(s@.push('/').is_prefix_of(v@));
        let mut rest: Vec<char> = Vec::new();
        let mut k: usize = s.len() + 1;
        while k < v.len()
            invariant
                s.len() + 1 <= k <= v.len(),
                rest@ == v@.subrange(s.len() + 1, k as int),
            decreases v.len() - k,
        {
            rest.push(v[k]);
            k = k + 1;
            assert(rest@ =~= v@.subrange(s.len() + 1, k as int));
        }
        assert(rest@ =~= v@.skip(s.len() + 1));
        let words = split_chars(&rest, ' ');
        proof {
            crate::text::lemma_split_on_nonempty(rest@, ' ');
        }
        let observed = Version::parse_chars(&words[0]);
        if observed.epochs.len() == 0 {
            return false;
        }
        self.version.contains(&observed)
    }

    /// Whether a response with `headers` matches the rule.
    pub fn scan(&self, headers: &HeaderMap) -> (r: bool)
        ensures
            r == rule_hit(self@, server_text(*headers)),
    {
        match server_header(headers) {
            Some(value) => self.verify_header(value.as_str()),
            None => false,
        }
    }

    /// The paths of the scripts of the rule's modules, under a directory
    /// named after the server in lower case.
    pub fn scripts(&self) -> (r: Vec<String>)
        ensures
            strings(r@) == self@.modules.map_values(
                |m: Seq<char>| script_path(lower_of(self@.server), m),
            ),
    {
        let dir = lowercase(self.server.as_str());
        script_paths(dir.as_str(), &self.modules)
    }
}

proof fn lemma_split_without_separator(s: Seq<char>, sep: char)
    requires
        forall|i: int| 0 <= i < s.len() ==> s[i] != sep,
    ensures
        split_on(s, sep) == seq![s],
    decreases s.len(),
{
    if s.len() > 0 {
        lemma_split_without_separator(s.drop_last(), sep);
        assert(s.drop_last().push(s.last()) =~= s);
        assert(split_on(s, sep) =~= seq![s]);
    } else {
        assert(s =~= Seq::<char>::empty());
    }
}

/// Length mismatch at the scan: a `Server` header that announces the rule's
/// server with a version `v` (a token without spaces) whose epochs are not
/// as many as those of the rule's specification never matches, whatever the
/// numbers.
pub proof fn law_scan_length_mismatch(rule: Rule, v: Seq<char>)
    requires
        forall|i: int| 0 <= i < v.len() ==> v[i] != ' ',
        version_of(v).len() != rule.spec.len(),
    ensures
        !header_matches(rule, rule.server.push('/') + v),
{
    let prefix = rule.server.push('/');
    let value = prefix + v;
    assert(prefix.is_prefix_of(value)) by {
        assert(value.subrange(0, prefix.len() as int) =~= prefix);
    }
    assert(value.skip(prefix.len() as int) =~= v);
    lemma_split_without_separator(v, ' ');
    assert(version_text(value, rule.server) == Some(v));
}

} // verus!
