//! Dotted version strings and the containment test between a vulnerable
//! specification and an observed version.
use vstd::prelude::*;

use crate::text::{chars_of, split_chars, split_on, views};

verus! {

pub open spec fn is_digit(c: char) -> bool {
    '0' <= c && c <= '9'
}

pub open spec fn all_digits(s: Seq<char>) -> bool {
    forall|i: int| 0 <= i < s.len() ==> #[trigger] is_digit(s[i])
}

/// The value of a run of decimal digits, most significant first.
pub open spec fn digits_value(s: Seq<char>) -> nat
    decreases s.len(),
{
    if s.len() == 0 {
        0
    } else {
        digits_value(s.drop_last()) * 10 + ((s.last() as int) - ('0' as int)) as nat
    }
}

/// The digits of a number text once an optional leading `+` is removed.
pub open spec fn unsigned_digits(s: Seq<char>) -> Seq<char> {
    if s.len() > 0 && s[0] == '+' {
        s.drop_first()
    } else {
        s
    }
}

/// The `u64` that `s` spells, in the syntax of `u64::from_str`: an optional
/// `+` and one or more decimal digits whose value fits in 64 bits.
pub open spec fn number_of(s: Seq<char>) -> Option<u64> {
    let d = unsigned_digits(s);
    if d.len() > 0 && all_digits(d) && digits_value(d) <= u64::MAX {
        Some(digits_value(d) as u64)
    } else {
        None
    }
}

proof fn lemma_digits_value_prefix(s: Seq<char>, k: int)
    requires
        0 <= k <= s.len(),
        all_digits(s),
    ensures
        digits_value(s.take(k)) <= digits_value(s),
    decreases s.len(),
{
    if k < s.len() {
        let init = s.drop_last();
        assert(all_digits(init)) by {
            assert forall|i: int| 0 <= i < init.len() implies #[trigger] is_digit(init[i]) by {
                assert(is_digit(s[i]));
            }
        }
        lemma_digits_value_prefix(init, k);
        assert(init.take(k) =~= s.take(k));
        assert(digits_value(s) == digits_value(init) * 10 + ((s.last() as int) - ('0' as int)) as nat);
        assert(digits_value(init) * 10 >= digits_value(init)) by (nonlinear_arith);
    } else {
        assert(s.take(k) =~= s);
    }
}

/// Reads a decimal `u64` from `p`, as `u64::from_str` does.
pub fn parse_number(p: &Vec<char>) -> (r: Option<u64>)
    ensures
        r == number_of(p@),
{
    let mut start: usize = 0;
    if p.len() > 0 && p[0] == '+' {
        start = 1;
    }
    let ghost d = unsigned_digits(p@);
    assert(d =~= p@.skip(start as int));
    if start >= p.len() {
        return None;
    }
    let mut value: u64 = 0;
    let mut i: usize = start;
    while i < p.len()
        invariant
            start <= i <= p.len(),
            d == p@.skip(start as int),
            d == unsigned_digits(p@),
            d.len() > 0,
            all_digits(d.take(i - start)),
            value == digits_value(d.take(i - start)),
        decreases p.len() - i,
    {
        let c = p[i];
        let ghost k = i - start;
        assert(d[k] == c);
        if !('0' <= c && c <= '9') {
            assert(!is_digit(d[k]));
            assert(!all_digits(d));
            return None;
        }
        let dv = (c as u32 - '0' as u32) as u64;
        assert(d.take(k + 1).drop_last() =~= d.take(k));
        assert(digits_value(d.take(k + 1)) == digits_value(d.take(k)) * 10 + dv);
        if value > (u64::MAX - dv) / 10 {
            proof {
                assert(value * 10 + dv > u64::MAX) by (nonlinear_arith)
                    requires
                        value > (u64::MAX - dv) / 10,
                        dv <= 9,
                ;
                if all_digits(d) {
                    lemma_digits_value_prefix(d, k + 1);
                    assert(digits_value(d) > u64::MAX);
                }
                assert(number_of(p@) is None);
            }
            return None;
        }
        assert(value * 10 + dv <= u64::MAX) by (nonlinear_arith)
            requires
                value <= (u64::MAX - dv) / 10,
                dv <= 9,
        ;
        value = value * 10 + dv;
        i = i + 1;
        assert(all_digits(d.take(i - start))) by {
            assert forall|j: int| 0 <= j < i - start implies #[trigger] is_digit(
                d.take(i - start)[j],
            ) by {
                if j < k {
                    assert(d.take(k)[j] == d.take(i - start)[j]);
                }
            }
        }
    }
    assert(d.take(p.len() - start) =~= d);
    Some(value)
}

/// One dot-separated component of a version: a single number, or a range
/// from `lo` (included) to `hi` (excluded).
#[derive(Clone, Copy, Debug, PartialEq, Eq, Structural)]
pub enum Epoch {
    Point(u64),
    Range(u64, u64),
}

impl Epoch {
    /// Whether `x` falls in this epoch.
    pub open spec fn holds(self, x: u64) -> bool {
        match self {
            Epoch::Point(p) => p == x,
            Epoch::Range(lo, hi) => lo <= x && x < hi,
        }
    }

    pub fn contains(&self, x: u64) -> (r: bool)
        ensures
            r == self.holds(x),
    {
        match *self {
            Epoch::Point(p) => p == x,
            Epoch::Range(lo, hi) => lo <= x && x < hi,
        }
    }
}

/// The epoch that a list of parsed numbers makes: none for no number, a
/// point for one, and otherwise the range from the first to the last.
pub open spec fn epoch_of_numbers(nums: Seq<u64>) -> Option<Epoch> {
    if nums.len() == 0 {
        None
    } else if nums.len() == 1 {
        Some(Epoch::Point(nums[0]))
    } else {
        Some(Epoch::Range(nums[0], nums.last()))
    }
}

/// The numbers of a component's `-`-separated parts; a part that is no
/// number is left out.
pub open spec fn numbers_in(part: Seq<char>) -> Seq<u64> {
    split_on(part, '-').filter_map(|p: Seq<char>| number_of(p))
}

pub open spec fn epoch_of(part: Seq<char>) -> Option<Epoch> {
    epoch_of_numbers(numbers_in(part))
}

/// The epochs of a dotted version text; a component without any number
/// is left out.
pub open spec fn version_of(text: Seq<char>) -> Seq<Epoch> {
    split_on(text, '.').filter_map(|c: Seq<char>| epoch_of(c))
}

/// The values of the point epochs of `v`, in order; range epochs are left
/// out.
pub open spec fn point_values(v: Seq<Epoch>) -> Seq<u64> {
    v.filter_map(
        |e: Epoch|
            match e {
                Epoch::Point(x) => Some(x),
                Epoch::Range(_, _) => None,
            },
    )
}

/// Whether the specification `spec` contains the observed version `obs`:
/// both have as many epochs, and each epoch of `spec` holds the observed
/// point value in the same place. Only the observed point values take part,
/// so an observed range shifts the values after it one place forward.
pub open spec fn version_contains(spec: Seq<Epoch>, obs: Seq<Epoch>) -> bool {
    &&& spec.len() == obs.len()
    &&& forall|i: int|
        0 <= i < point_values(obs).len() ==> #[trigger] spec[i].holds(point_values(obs)[i])
}

/// Parses one component of a version.
pub fn parse_epoch(part: &Vec<char>) -> (r: Option<Epoch>)
    ensures
        r == epoch_of(part@),
{
    let pieces = split_chars(part, '-');
    let ghost f = |p: Seq<char>| number_of(p);
    let mut nums: Vec<u64> = Vec::new();
    let mut i: usize = 0;
    while i < pieces.len()
        invariant
            i <= pieces.len(),
            views(pieces@) == split_on(part@, '-'),
            f == (|p: Seq<char>| number_of(p)),
            nums@ == views(pieces@).take(i as int).filter_map(f),
        decreases pieces.len() - i,
    {
        proof {
            views(pieces@).lemma_filter_map_take_succ(f, i as int);
        }
        match parse_number(&pieces[i]) {
            Some(n) => {
                nums.push(n);
            },
            None => {},
        }
        i = i + 1;
    }
    assert(views(pieces@).take(pieces.len() as int) =~= views(pieces@));
    if nums.len() == 0 {
        None
    } else if nums.len() == 1 {
        Some(Epoch::Point(nums[0]))
    } else {
        Some(Epoch::Range(nums[0], nums[nums.len() - 1]))
    }
}

/// A version: its epochs, one per dot-separated component that holds a
/// number.
#[derive(Debug)]
pub struct Version {
    pub epochs: Vec<Epoch>,
}

impl View for Version {
    type V = Seq<Epoch>;

    open spec fn view(&self) -> Seq<Epoch> {
        self.epochs@
    }
}

impl Version {
    /// Parses a dotted version text such as `2.4.49` or `2.4.46-52`.
    pub fn parse(text: &str) -> (r: Version)
        ensures
            r@ == version_of(text@),
    {
        let chars = chars_of(text);
        Version::parse_chars(&chars)
    }

    /// Parses a dotted version given as characters.
    pub fn parse_chars(chars: &Vec<char>) -> (r: Version)
        ensures
            r@ == version_of(chars@),
    {
        let comps = split_chars(chars, '.');
        let ghost f = |c: Seq<char>| epoch_of(c);
        let mut epochs: Vec<Epoch> = Vec::new();
        let mut i: usize = 0;
        while i < comps.len()
            invariant
                i <= comps.len(),
                views(comps@) == split_on(chars@, '.'),
                f == (|c: Seq<char>| epoch_of(c)),
                epochs@ == views(comps@).take(i as int).filter_map(f),
            decreases comps.len() - i,
        {
            proof {
                views(comps@).lemma_filter_map_take_succ(f, i as int);
            }
            match parse_epoch(&comps[i]) {
                Some(e) => {
                    epochs.push(e);
                },
                None => {},
            }
            i = i + 1;
        }
        assert(views(comps@).take(comps.len() as int) =~= views(comps@));
        Version { epochs }
    }

    /// The values of the point epochs, in order.
    pub fn points(&self) -> (r: Vec<u64>)
        ensures
            r@ == point_values(self@),
    {
        let ghost f = |e: Epoch|
            match e {
                Epoch::Point(x) => Some(x),
                Epoch::Range(_, _) => None,
            };
        let mut r: Vec<u64> = Vec::new();
        let mut i: usize = 0;
        while i < self.epochs.len()
            invariant
                i <= self.epochs.len(),
                f == (|e: Epoch|
                    match e {
                        Epoch::Point(x) => Some(x),
                        Epoch::Range(_, _) => None,
                    }),
                r@ == self@.take(i as int).filter_map(f),
            decreases self.epochs.len() - i,
        {
            proof {
                self@.lemma_filter_map_take_succ(f, i as int);
            }
            match self.epochs[i] {
                Epoch::Point(x) => {
                    r.push(x);
                },
                Epoch::Range(_, _) => {},
            }
            i = i + 1;
        }
        assert(self@.take(self@.len() as int) =~= self@);
        r
    }

    /// Whether this version, read as a vulnerable specification, contains
    /// the observed version `other`.
    pub fn contains(&self, other: &Version) -> (r: bool)
        ensures
            r == version_contains(self@, other@),
            self@.len() != other@.len() ==> !r,
    {
        if self.epochs.len() != other.epochs.len() {
            return false;
        }
        let points = other.points();
        proof {
            lemma_point_values_len(other@);
        }
        let mut i: usize = 0;
        while i < points.len()
            invariant
                points@ == point_values(other@),
                points.len() <= self.epochs.len(),
                i <= points.len(),
                forall|j: int| 0 <= j < i ==> #[trigger] self@[j].holds(points@[j]),
            decreases points.len() - i,
        {
            if !self.epochs[i].contains(points[i]) {
                return false;
            }
            i = i + 1;
        }
        true
    }
}

proof fn lemma_point_values_len(v: Seq<Epoch>)
    ensures
        point_values(v).len() <= v.len(),
    decreases v.len(),
{
    if v.len() > 0 {
        lemma_point_values_len(v.drop_last());
    }
}

} // verus!
