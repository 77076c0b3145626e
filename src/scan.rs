//! The scanner: the configured target rules, applied to every response.
use vstd::prelude::*;

use reqwest::header::HeaderMap;

use crate::target::{rule_hit, rule_of, server_header, server_text, Rule, Target, TargetOptions};
use crate::text::strings;

verus! {

/// The options of the first entry of `table` named `name`, if any.
pub open spec fn lookup(table: Seq<(String, TargetOptions)>, name: Seq<char>) -> Option<
    TargetOptions,
>
    decreases table.len(),
{
    if table.len() == 0 {
        None
    } else if table[0].0@ == name {
        Some(table[0].1)
    } else {
        lookup(table.drop_first(), name)
    }
}

/// The rules that the names `names` select from `table`, in the order of
/// the names; a name without an entry is skipped.
pub open spec fn rules_for(names: Seq<Seq<char>>, table: Seq<(String, TargetOptions)>) -> Seq<
    Rule,
> {
    names.filter_map(
        |n: Seq<char>|
            match lookup(table, n) {
                Some(o) => Some(rule_of(n, o)),
                None => None,
            },
    )
}

/// The places of the rules that a response whose `Server` header reads
/// `value` matches, in increasing order.
pub open spec fn matching(rules: Seq<Rule>, value: Option<Seq<char>>) -> Seq<usize>
    decreases rules.len(),
{
    if rules.len() == 0 {
        Seq::empty()
    } else {
        let init = matching(rules.drop_last(), value);
        if rule_hit(rules.last(), value) {
            init.push((rules.len() - 1) as usize)
        } else {
            init
        }
    }
}

/// The place of the first entry of `table` named `name`.
pub fn find_rule(table: &Vec<(String, TargetOptions)>, name: &String) -> (r: Option<usize>)
    ensures
        match r {
            Some(i) => i < table.len() && lookup(table@, name@) == Some(table@[i as int].1),
            None => lookup(table@, name@) is None,
        },
{
    let mut i: usize = 0;
    assert(table@.skip(0) =~= table@);
    while i < table.len()
        invariant
            i <= table.len(),
            lookup(table@.skip(i as int), name@) == lookup(table@, name@),
        decreases table.len() - i,
    {
        assert(table@.skip(i as int)[0] == table@[i as int]);
        if table[i].0 == *name {
            return Some(i);
        }
        assert(table@.skip(i as int).drop_first() =~= table@.skip(i + 1));
        i = i + 1;
    }
    None
}

/// The target rules of a run, shared read-only by all workers.
pub struct Scanner {
    targets: Vec<Target>,
}

impl View for Scanner {
    type V = Seq<Rule>;

    closed spec fn view(&self) -> Seq<Rule> {
        self.targets@.map_values(|t: Target| t@)
    }
}

impl Scanner {
    /// The scanner for the target names `names`, each configured by the first
    /// entry of `table` with that name; names without an entry are skipped.
    pub fn new(names: &Vec<String>, table: &Vec<(String, TargetOptions)>) -> (r: Scanner)
        ensures
            r@ == rules_for(strings(names@), table@),
    {
        let ghost f = |n: Seq<char>|
            match lookup(table@, n) {
                Some(o) => Some(rule_of(n, o)),
                None => None,
            };
        let mut targets: Vec<Target> = Vec::new();
        let mut i: usize = 0;
        while i < names.len()
            invariant
                i <= names.len(),
                f == (|n: Seq<char>|
                    match lookup(table@, n) {
                        Some(o) => Some(rule_of(n, o)),
                        None => None,
                    }),
                targets@.map_values(|t: Target| t@) == strings(names@).take(i as int).filter_map(
                    f,
                ),
            decreases names.len() - i,
        {
            proof {
                strings(names@).lemma_filter_map_take_succ(f, i as int);
            }
            match find_rule(table, &names[i]) {
                Some(k) => {
                    let t = Target::new(names[i].as_str(), &table[k].1);
                    proof {
                        targets@.lemma_push_map_commute(|t: Target| t@, t);
                    }
                    targets.push(t);
                },
                None => {},
            }
            i = i + 1;
        }
        assert(strings(names@).take(names.len() as int) =~= strings(names@));
        Scanner { targets }
    }

    /// How many rules the scanner holds.
    pub fn len(&self) -> (r: usize)
        ensures
            r == self@.len(),
    {
        self.targets.len()
    }

    /// The rule at place `i`.
    pub fn target(&self, i: usize) -> (r: &Target)
        requires
            i < self@.len(),
        ensures
            r@ == self@[i as int],
    {
        &self.targets[i]
    }

    /// The places of the rules that a response whose `Server` header reads
    /// `value` matches.
    pub fn matches(&self, value: Option<&str>) -> (r: Vec<usize>)
        ensures
            r@ == matching(
                self@,
                match value {
                    Some(v) => Some(v@),
                    None => None,
                },
            ),
    {
        let ghost val = match value {
            Some(v) => Some(v@),
            None => None,
        };
        let mut r: Vec<usize> = Vec::new();
        let mut i: usize = 0;
        while i < self.targets.len()
            invariant
                i <= self.targets.len(),
                val == match value {
                    Some(v) => Some(v@),
                    None => None,
                },
                r@ == matching(self@.take(i as int), val),
            decreases self.targets.len() - i,
        {
            let hit = match value {
                Some(v) => self.targets[i].verify_header(v),
                None => false,
            };
            assert(self@.take(i + 1).drop_last() =~= self@.take(i as int));
            assert(self@.take(i + 1).last() == self.targets@[i as int]@);
            if hit {
                r.push(i);
            }
            i = i + 1;
        }
        assert(self@.take(self.targets.len() as int) =~= self@);
        r
    }

    /// The places of the rules that a response with `headers` matches.
    pub fn scan(&self, headers: &HeaderMap) -> (r: Vec<usize>)
        ensures
            r@ == matching(self@, server_text(*headers)),
    {
        match server_header(headers) {
            Some(value) => self.matches(Some(value.as_str())),
            None => self.matches(None),
        }
    }
}

} // verus!
