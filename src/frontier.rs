//! The crawl frontier: a work queue of URLs that admits at most one URL per
//! domain key, and the drains that hand a layer of it to the workers.
use vstd::prelude::*;

use crate::text::{chars_of, lower_of, lowercase, same_text, strings};

verus! {

/// Where the domain key of `u` ends, searching from `i` with `slashes`
/// slashes already seen: at the third `/`, or at the end of `u`.
pub open spec fn domain_end_from(u: Seq<char>, i: int, slashes: nat) -> int
    decreases u.len() - i,
{
    if i < 0 || i >= u.len() {
        u.len() as int
    } else if u[i] == '/' {
        if slashes >= 2 {
            i
        } else {
            domain_end_from(u, i + 1, slashes + 1)
        }
    } else {
        domain_end_from(u, i + 1, slashes)
    }
}

/// The characters of `s` other than `/`, in order.
pub open spec fn drop_slashes(s: Seq<char>) -> Seq<char>
    decreases s.len(),
{
    if s.len() == 0 {
        Seq::empty()
    } else if s.last() == '/' {
        drop_slashes(s.drop_last())
    } else {
        drop_slashes(s.drop_last()).push(s.last())
    }
}

/// The domain key of a URL: its first three `/`-separated segments (scheme,
/// the empty segment and the host with its port) joined with nothing in
/// between, that is everything before the third `/` with its slashes left
/// out (`http://a.com/x` has the key `http:a.com`).
pub open spec fn domain_of(u: Seq<char>) -> Seq<char> {
    drop_slashes(u.take(domain_end_from(u, 0, 0)))
}

proof fn lemma_domain_end_bounds(u: Seq<char>, i: int, slashes: nat)
    requires
        0 <= i,
    ensures
        0 <= domain_end_from(u, i, slashes) <= u.len(),
    decreases u.len() - i,
{
    if i < u.len() {
        if u[i] == '/' {
            if slashes < 2 {
                lemma_domain_end_bounds(u, i + 1, slashes + 1);
            }
        } else {
            lemma_domain_end_bounds(u, i + 1, slashes);
        }
    }
}

fn domain_end(u: &Vec<char>) -> (e: usize)
    ensures
        e == domain_end_from(u@, 0, 0),
{
    let mut i: usize = 0;
    let mut slashes: usize = 0;
    while i < u.len()
        invariant
            i <= u.len(),
            slashes <= 2,
            domain_end_from(u@, i as int, slashes as nat) == domain_end_from(u@, 0, 0),
        decreases u.len() - i,
    {
        if u[i] == '/' {
            if slashes == 2 {
                return i;
            }
            slashes = slashes + 1;
        }
        i = i + 1;
    }
    i
}

/// The domain key of `url`.
pub fn domain_key(url: &str) -> (r: String)
    ensures
        r@ == domain_of(url@),
{
    let chars = chars_of(url);
    let end = domain_end(&chars);
    proof {
        lemma_domain_end_bounds(url@, 0, 0);
    }
    let mut r = String::new();
    let mut i: usize = 0;
    while i < end
        invariant
            i <= end <= chars@.len(),
            chars@ == url@,
            r@ == drop_slashes(url@.take(i as int)),
        decreases end - i,
    {
        assert(url@.take(i + 1).drop_last() =~= url@.take(i as int));
        assert(url@.take(i + 1).last() == chars@[i as int]);
        if chars[i] != '/' {
            let ghost before = r@;
            r.append(url.substring_char(i, i + 1));
            assert(url@.subrange(i as int, i + 1) =~= seq![chars@[i as int]]);
            assert(r@ =~= before.push(chars@[i as int]));
        }
        i = i + 1;
    }
    r
}

/// A set of domain keys, kept as a list so that membership is decided by
/// comparing strings.
pub struct DomainSet {
    keys: Vec<String>,
}

impl View for DomainSet {
    type V = Set<Seq<char>>;

    closed spec fn view(&self) -> Set<Seq<char>> {
        strings(self.keys@).to_set()
    }
}

impl DomainSet {
    pub fn new() -> (r: DomainSet)
        ensures
            r@ == Set::<Seq<char>>::empty(),
    {
        let r = DomainSet { keys: Vec::new() };
        assert(r@ =~= Set::<Seq<char>>::empty());
        r
    }

    /// Adds `key`; the result tells whether it was new.
    pub fn insert(&mut self, key: String) -> (fresh: bool)
        ensures
            fresh == !old(self)@.contains(key@),
            final(self)@ == old(self)@.insert(key@),
    {
        let mut i: usize = 0;
        while i < self.keys.len()
            invariant
                i <= self.keys.len(),
                forall|j: int| 0 <= j < i ==> strings(self.keys@)[j] != key@,
            decreases self.keys.len() - i,
        {
            if self.keys[i] == key {
                proof {
                    assert(strings(self.keys@)[i as int] == key@);
                    assert(self@.contains(key@));
                    assert(self@ =~= self@.insert(key@));
                }
                return false;
            }
            i = i + 1;
        }
        proof {
            assert(!strings(self.keys@).contains(key@));
            strings(self.keys@).lemma_push_to_set_commute(key@);
            self.keys@.lemma_push_map_commute(|s: String| s@, key);
        }
        self.keys.push(key);
        true
    }
}

/// The contents of a frontier: the URLs waiting for the next drain, and
/// every domain key that has ever been admitted.
#[verifier::ext_equal]
pub ghost struct QueueState {
    pub pending: Seq<Seq<char>>,
    pub seen: Set<Seq<char>>,
}

pub open spec fn empty_state() -> QueueState {
    QueueState { pending: Seq::empty(), seen: Set::empty() }
}

/// A frontier is sound when each pending URL's domain key has been seen and
/// no two pending URLs share a domain key.
pub open spec fn frontier_ok(s: QueueState) -> bool {
    &&& forall|i: int| 0 <= i < s.pending.len() ==> s.seen.contains(#[trigger] domain_of(s.pending[i]))
    &&& forall|i: int, j: int|
        0 <= i < j < s.pending.len() ==> #[trigger] domain_of(s.pending[i]) != #[trigger] domain_of(
            s.pending[j],
        )
}

/// Pushing `url`: admitted when its domain key is new, otherwise dropped.
pub open spec fn push_state(s: QueueState, url: Seq<char>) -> QueueState {
    if s.seen.contains(domain_of(url)) {
        s
    } else {
        QueueState { pending: s.pending.push(url), seen: s.seen.insert(domain_of(url)) }
    }
}

proof fn lemma_push_keeps_ok(s: QueueState, url: Seq<char>)
    requires
        frontier_ok(s),
    ensures
        frontier_ok(push_state(s, url)),
{
    if !s.seen.contains(domain_of(url)) {
        let t = push_state(s, url);
        assert forall|i: int, j: int| 0 <= i < j < t.pending.len() implies #[trigger] domain_of(
            t.pending[i],
        ) != #[trigger] domain_of(t.pending[j]) by {
            if j == s.pending.len() {
                assert(s.seen.contains(domain_of(s.pending[i])));
            } else {
                assert(domain_of(s.pending[i]) != domain_of(s.pending[j]));
            }
        }
        assert forall|i: int| 0 <= i < t.pending.len() implies t.seen.contains(
            #[trigger] domain_of(t.pending[i]),
        ) by {
            if i < s.pending.len() {
                assert(s.seen.contains(domain_of(s.pending[i])));
            }
        }
    }
}

/// Pushing each of `urls` in order.
pub open spec fn push_all(s: QueueState, urls: Seq<Seq<char>>) -> QueueState
    decreases urls.len(),
{
    if urls.len() == 0 {
        s
    } else {
        push_state(push_all(s, urls.drop_last()), urls.last())
    }
}

/// What a drain leaves behind: nothing pending, the same domains seen.
pub open spec fn drained_state(s: QueueState) -> QueueState {
    QueueState { pending: Seq::empty(), seen: s.seen }
}

/// The reasons a frontier operation fails.
#[derive(Clone, Copy, Debug, PartialEq, Eq, Structural)]
pub enum QueueError {
    /// A drain found nothing pending: the crawl is over.
    Empty,
    /// The requested backing is neither `memory` nor `file`.
    UnknownBacking,
}

/// The state after a single pop: the last URL leaves, if there is one.
pub open spec fn pop_state(rem: Seq<Seq<char>>) -> (Seq<Seq<char>>, Option<Seq<char>>) {
    if rem.len() == 0 {
        (rem, None)
    } else {
        (rem.drop_last(), Some(rem.last()))
    }
}

pub open spec fn opt_view(r: Option<String>) -> Option<Seq<char>> {
    match r {
        Some(s) => Some(s@),
        None => None,
    }
}

/// A snapshot of a frontier layer, emptied one URL at a time.
pub trait Drain: Sized {
    /// The URLs still to be handed out.
    spec fn remaining(&self) -> Seq<Seq<char>>;

    /// How many URLs the snapshot held when it was taken.
    spec fn size(&self) -> nat;

    fn len(&self) -> (r: usize)
        ensures
            r == self.size(),
    ;

    /// Hands out one URL, or `None` once the snapshot is exhausted.
    fn pop(&mut self) -> (r: Option<String>)
        ensures
            (final(self).remaining(), opt_view(r)) == pop_state(old(self).remaining()),
            final(self).size() == old(self).size(),
    ;
}

/// A frontier: a deduplicating queue that is emptied a layer at a time.
pub trait Queue: Sized {
    type Snapshot: Drain;

    spec fn state(&self) -> QueueState;

    /// Pushes each of `urls` in order.
    fn extend(&mut self, urls: Vec<String>)
        ensures
            final(self).state() == push_all(old(self).state(), strings(urls@)),
    ;

    /// Moves everything pending into a new snapshot; fails with
    /// `QueueError::Empty` when nothing is pending.
    fn drain(&mut self) -> (r: Result<Self::Snapshot, QueueError>)
        ensures
            old(self).state().pending.len() == 0 ==> r == Err::<Self::Snapshot, QueueError>(
                QueueError::Empty,
            ) && final(self).state() == old(self).state(),
            old(self).state().pending.len() > 0 ==> {
                &&& r matches Ok(d) && d.remaining() == old(self).state().pending && d.size()
                    == old(self).state().pending.len()
                &&& final(self).state() == drained_state(old(self).state())
            },
    ;
}

/// A frontier held in memory.
pub struct MemoryQueue {
    queue: Vec<String>,
    domains: DomainSet,
}

impl View for MemoryQueue {
    type V = QueueState;

    closed spec fn view(&self) -> QueueState {
        QueueState { pending: strings(self.queue@), seen: self.domains@ }
    }
}

impl MemoryQueue {
    #[verifier::type_invariant]
    closed spec fn sound(self) -> bool {
        frontier_ok(self@)
    }

    /// A frontier that holds the seeds, pushed in order.
    pub fn new(seeds: Vec<String>) -> (r: MemoryQueue)
        ensures
            r@ == push_all(empty_state(), strings(seeds@)),
            frontier_ok(r@),
    {
        let mut q = MemoryQueue { queue: Vec::new(), domains: DomainSet::new() };
        assert(q@ =~= empty_state());
        q.extend(seeds);
        proof {
            use_type_invariant(&q);
        }
        q
    }

    /// Pushes `new` when its domain key has not been seen before.
    pub fn push(&mut self, new: String)
        ensures
            final(self)@ == push_state(old(self)@, new@),
            frontier_ok(final(self)@),
    {
        proof {
            use_type_invariant(&*self);
        }
        let domain = domain_key(new.as_str());
        let mut taken = MemoryQueue { queue: Vec::new(), domains: DomainSet::new() };
        assert(taken@ =~= empty_state());
        std::mem::swap(self, &mut taken);
        let MemoryQueue { mut queue, mut domains } = taken;
        if domains.insert(domain) {
            proof {
                queue@.lemma_push_map_commute(|s: String| s@, new);
            }
            queue.push(new);
        }
        proof {
            lemma_push_keeps_ok(old(self)@, new@);
            assert(QueueState { pending: strings(queue@), seen: domains@ } =~= push_state(
                old(self)@,
                new@,
            ));
        }
        *self = MemoryQueue { queue, domains };
    }
}

impl Queue for MemoryQueue {
    type Snapshot = MemoryDrain;

    open spec fn state(&self) -> QueueState {
        self@
    }

    fn extend(&mut self, urls: Vec<String>) {
        let ghost start = self@;
        let mut i: usize = 0;
        while i < urls.len()
            invariant
                i <= urls.len(),
                self@ == push_all(start, strings(urls@).take(i as int)),
            decreases urls.len() - i,
        {
            let url = urls[i].clone();
            self.push(url);
            proof {
                assert(strings(urls@).take(i + 1).drop_last() =~= strings(urls@).take(i as int));
            }
            i = i + 1;
        }
        assert(strings(urls@).take(urls.len() as int) =~= strings(urls@));
    }

    fn drain(&mut self) -> (r: Result<MemoryDrain, QueueError>) {
        if self.queue.len() == 0 {
            return Err(QueueError::Empty);
        }
        let mut taken: Vec<String> = Vec::new();
        std::mem::swap(&mut self.queue, &mut taken);
        assert(self@ =~= drained_state(old(self)@));
        Ok(MemoryDrain::new(taken))
    }
}

/// A drain held in memory.
pub struct MemoryDrain {
    drain: Vec<String>,
    length: usize,
}

impl MemoryDrain {
    /// A drain that hands out `drain`, last first.
    pub fn new(drain: Vec<String>) -> (r: MemoryDrain)
        ensures
            r.remaining() == strings(drain@),
            r.size() == drain@.len(),
    {
        let length = drain.len();
        MemoryDrain { drain, length }
    }
}

impl Drain for MemoryDrain {
    closed spec fn remaining(&self) -> Seq<Seq<char>> {
        strings(self.drain@)
    }

    closed spec fn size(&self) -> nat {
        self.length as nat
    }

    fn len(&self) -> (r: usize) {
        self.length
    }

    fn pop(&mut self) -> (r: Option<String>) {
        let r = self.drain.pop();
        proof {
            if old(self).drain@.len() > 0 {
                assert(strings(self.drain@) =~= strings(old(self).drain@).drop_last());
            }
        }
        r
    }
}

/// The text of a log that holds `urls`, one per line.
pub open spec fn log_text(urls: Seq<Seq<char>>) -> Seq<char>
    decreases urls.len(),
{
    if urls.len() == 0 {
        Seq::empty()
    } else {
        log_text(urls.drop_last()) + urls.last().push('\n')
    }
}

/// The URLs among `urls` that a frontier which has seen `seen` admits, in
/// order.
pub open spec fn admitted(seen: Set<Seq<char>>, urls: Seq<Seq<char>>) -> Seq<Seq<char>> {
    push_all(QueueState { pending: Seq::empty(), seen }, urls).pending
}

/// The bookkeeping of a frontier whose pending URLs live in an append-only
/// log of lines that the caller keeps: the domain keys seen, and how many
/// lines were appended since the last drain.
pub struct FileQueue {
    domains: DomainSet,
    length: u64,
}

impl FileQueue {
    pub closed spec fn seen(&self) -> Set<Seq<char>> {
        self.domains@
    }

    pub closed spec fn length(&self) -> nat {
        self.length as nat
    }

    /// How many lines the current log generation holds.
    pub fn lines(&self) -> (r: u64)
        ensures
            r == self.length(),
    {
        self.length
    }

    /// A log that holds the admitted seeds; the text to write first comes
    /// with it.
    pub fn new(seeds: Vec<String>) -> (r: (FileQueue, String))
        ensures
            r.1@ == log_text(admitted(Set::empty(), strings(seeds@))),
            r.0.length() == admitted(Set::empty(), strings(seeds@)).len(),
            r.0.seen() == push_all(empty_state(), strings(seeds@)).seen,
            r.0.length() <= seeds.len(),
    {
        let mut q = FileQueue { domains: DomainSet::new(), length: 0 };
        let (text, count) = q.extend(seeds);
        q.record(count);
        assert(empty_state() =~= (QueueState { pending: Seq::empty(), seen: Set::empty() }));
        (q, text)
    }

    /// Records as seen the domain keys of `urls` and returns the text to
    /// append to the log for the URLs whose keys were new, with how many
    /// lines it holds. The line count is left as it is: once the text is
    /// written, `record` adds its lines. When the write fails, the domain
    /// keys stay seen and those URLs are lost to the crawl.
    pub fn extend(&mut self, urls: Vec<String>) -> (r: (String, u64))
        ensures
            r.0@ == log_text(admitted(old(self).seen(), strings(urls@))),
            r.1 == admitted(old(self).seen(), strings(urls@)).len(),
            r.1 <= urls.len(),
            final(self).length() == old(self).length(),
            final(self).seen() == push_all(
                QueueState { pending: Seq::empty(), seen: old(self).seen() },
                strings(urls@),
            ).seen,
    {
        let ghost start = QueueState { pending: Seq::empty(), seen: self.domains@ };
        let mut text = String::new();
        let mut count: u64 = 0;
        let mut i: usize = 0;
        proof {
            reveal_strlit("\n");
        }
        while i < urls.len()
            invariant
                i <= urls.len(),
                urls.len() <= u64::MAX,
                self.length == old(self).length,
                start == (QueueState { pending: Seq::empty(), seen: old(self).seen() }),
                self.domains@ == push_all(start, strings(urls@).take(i as int)).seen,
                text@ == log_text(push_all(start, strings(urls@).take(i as int)).pending),
                count == push_all(start, strings(urls@).take(i as int)).pending.len(),
                count <= i,
            decreases urls.len() - i,
        {
            let ghost before = push_all(start, strings(urls@).take(i as int));
            assert(strings(urls@).take(i + 1).drop_last() =~= strings(urls@).take(i as int));
            let url = &urls[i];
            let domain = domain_key(url.as_str());
            if self.domains.insert(domain) {
                let ghost prev = text@;
                text.append(url.as_str());
                text.append("\n");
                count = count + 1;
                proof {
                    reveal_strlit("\n");
                    assert(before.pending.push(url@).drop_last() =~= before.pending);
                    assert(text@ =~= prev + url@.push('\n'));
                }
            }
            i = i + 1;
        }
        assert(strings(urls@).take(urls.len() as int) =~= strings(urls@));
        (text, count)
    }

    /// Adds `lines` lines, just written to the log, to the count.
    pub fn record(&mut self, lines: u64)
        requires
            old(self).length() + lines <= u64::MAX,
        ensures
            final(self).length() == old(self).length() + lines,
            final(self).seen() == old(self).seen(),
    {
        self.length = self.length + lines;
    }

    /// Starts a new log generation: returns how many lines the current one
    /// holds and sets the count back to zero; fails with `QueueError::Empty`,
    /// changing nothing, when the current generation holds no line.
    pub fn drain(&mut self) -> (r: Result<u64, QueueError>)
        ensures
            old(self).length() == 0 ==> r == Err::<u64, QueueError>(QueueError::Empty)
                && final(self).length() == 0,
            old(self).length() > 0 ==> r == Ok::<u64, QueueError>(old(self).length() as u64)
                && final(self).length() == 0,
            final(self).seen() == old(self).seen(),
    {
        if self.length == 0 {
            return Err(QueueError::Empty);
        }
        let n = self.length;
        self.length = 0;
        Ok(n)
    }
}

/// A frontier as configured: held in memory, or kept as a log by the caller
/// that writes `seed_log` first.
pub enum Frontier {
    Memory(MemoryQueue),
    File(FileQueue, String),
}

/// The frontier that the backing `kind`, already in lower case, names,
/// seeded with `seeds`: `memory` or `file`; any other name is refused.
pub fn backing_for(kind: &str, seeds: Vec<String>) -> (r: Result<Frontier, QueueError>)
    ensures
        kind@ == "memory"@ ==> (r matches Ok(Frontier::Memory(q)) && q@ == push_all(
            empty_state(),
            strings(seeds@),
        )),
        kind@ == "file"@ ==> (r matches Ok(Frontier::File(f, log)) && log@ == log_text(
            admitted(Set::empty(), strings(seeds@)),
        ) && f.length() == admitted(Set::empty(), strings(seeds@)).len() && f.seen() == push_all(
            empty_state(),
            strings(seeds@),
        ).seen),
        kind@ != "memory"@ && kind@ != "file"@ ==> r == Err::<Frontier, QueueError>(
            QueueError::UnknownBacking,
        ),
{
    proof {
        reveal_strlit("memory");
        reveal_strlit("file");
        assert("memory"@.len() != "file"@.len());
    }
    if same_text(kind, "memory") {
        Ok(Frontier::Memory(MemoryQueue::new(seeds)))
    } else if same_text(kind, "file") {
        let (f, log) = FileQueue::new(seeds);
        Ok(Frontier::File(f, log))
    } else {
        Err(QueueError::UnknownBacking)
    }
}

/// The frontier that the backing name `queue` names, in any case.
pub fn init_queue(queue: &str, seeds: Vec<String>) -> (r: Result<Frontier, QueueError>)
    ensures
        lower_of(queue@) == "memory"@ ==> (r matches Ok(Frontier::Memory(q)) && q@ == push_all(
            empty_state(),
            strings(seeds@),
        )),
        lower_of(queue@) == "file"@ ==> (r matches Ok(Frontier::File(f, log)) && log@ == log_text(
            admitted(Set::empty(), strings(seeds@)),
        ) && f.length() == admitted(Set::empty(), strings(seeds@)).len() && f.seen() == push_all(
            empty_state(),
            strings(seeds@),
        ).seen),
        lower_of(queue@) != "memory"@ && lower_of(queue@) != "file"@ ==> r == Err::<
            Frontier,
            QueueError,
        >(QueueError::UnknownBacking),
{
    let kind = lowercase(queue);
    backing_for(kind.as_str(), seeds)
}

/// The remaining URLs and the results after `k` pops of a drain that
/// holds `rem`.
pub open spec fn pop_run(rem: Seq<Seq<char>>, k: nat) -> (
    Seq<Seq<char>>,
    Seq<Option<Seq<char>>>,
)
    decreases k,
{
    if k == 0 {
        (rem, Seq::empty())
    } else {
        let before = pop_run(rem, (k - 1) as nat);
        let after = pop_state(before.0);
        (after.0, before.1.push(after.1))
    }
}

proof fn lemma_pop_run(rem: Seq<Seq<char>>, k: nat)
    requires
        k <= rem.len(),
    ensures
        pop_run(rem, k).0 == rem.take(rem.len() - k),
        pop_run(rem, k).1 == Seq::new(k, |i: int| Some(rem[rem.len() - 1 - i])),
    decreases k,
{
    if k == 0 {
        assert(rem.take(rem.len() as int) =~= rem);
        assert(Seq::new(0, |i: int| Some(rem[rem.len() - 1 - i])) =~= Seq::<
            Option<Seq<char>>,
        >::empty());
    } else {
        lemma_pop_run(rem, (k - 1) as nat);
        let before = rem.take(rem.len() - (k - 1));
        assert(before.drop_last() =~= rem.take(rem.len() - k));
        assert(pop_run(rem, k).1 =~= Seq::new(k, |i: int| Some(rem[rem.len() - 1 - i])));
    }
}

/// The pending URLs of a sound frontier are pairwise distinct, since their
/// domain keys are.
pub proof fn lemma_pending_distinct(s: QueueState)
    requires
        frontier_ok(s),
    ensures
        s.pending.no_duplicates(),
{
    assert forall|i: int, j: int|
        0 <= i < s.pending.len() && 0 <= j < s.pending.len() && i != j implies s.pending[i]
        != s.pending[j] by {
        if i < j {
            assert(domain_of(s.pending[i]) != domain_of(s.pending[j]));
        } else {
            assert(domain_of(s.pending[j]) != domain_of(s.pending[i]));
        }
    }
}

/// Domain dedup: the empty frontier is sound, pushing any sequence of URLs
/// onto a sound frontier keeps it sound, and of two URLs with one domain key
/// pushed in turn only the first is kept.
pub proof fn law_domain_dedup(s: QueueState, urls: Seq<Seq<char>>, a: Seq<char>, b: Seq<char>)
    requires
        frontier_ok(s),
        domain_of(a) == domain_of(b),
    ensures
        frontier_ok(empty_state()),
        frontier_ok(push_all(s, urls)),
        push_all(s, seq![a, b]) == push_state(s, a),
    decreases urls.len(),
{
    if urls.len() > 0 {
        law_domain_dedup(s, urls.drop_last(), a, b);
        lemma_push_keeps_ok(push_all(s, urls.drop_last()), urls.last());
    }
    assert(seq![a, b].drop_last() =~= seq![a]);
    assert(seq![a].drop_last() =~= Seq::<Seq<char>>::empty());
    assert(push_all(s, Seq::<Seq<char>>::empty()) == s);
    assert(seq![a].last() == a);
    assert(push_all(s, seq![a]) == push_state(s, a));
    assert(push_state(s, a).seen.contains(domain_of(a)));
    assert(push_all(s, seq![a, b]) == push_state(push_state(s, a), b));
}

/// Drain exhaustiveness: popping a drain of `L` URLs `L` times hands out
/// each of them, last first, and leaves nothing, so one pop more yields
/// `None`; when the URLs are distinct, as a sound frontier's pending URLs
/// are, no URL is handed out twice.
pub proof fn law_drain_exhaustive(rem: Seq<Seq<char>>)
    ensures
        pop_run(rem, rem.len()).0.len() == 0,
        pop_run(rem, rem.len()).1 == Seq::new(rem.len(), |i: int| Some(rem[rem.len() - 1 - i])),
        pop_state(pop_run(rem, rem.len()).0).1 is None,
        rem.no_duplicates() ==> forall|i: int, j: int|
            0 <= i < j < rem.len() ==> #[trigger] pop_run(rem, rem.len()).1[i] != #[trigger] pop_run(
                rem,
                rem.len(),
            ).1[j],
{
    lemma_pop_run(rem, rem.len());
    if rem.no_duplicates() {
        assert forall|i: int, j: int| 0 <= i < j < rem.len() implies #[trigger] pop_run(
            rem,
            rem.len(),
        ).1[i] != #[trigger] pop_run(rem, rem.len()).1[j] by {
            assert(rem[rem.len() - 1 - i] != rem[rem.len() - 1 - j]);
        }
    }
}

proof fn lemma_seen_grows(t: QueueState, found: Seq<Seq<char>>)
    ensures
        t.seen.subset_of(push_all(t, found).seen),
    decreases found.len(),
{
    if found.len() > 0 {
        lemma_seen_grows(t, found.drop_last());
    }
}

proof fn lemma_admitted_are_new(t: QueueState, found: Seq<Seq<char>>)
    requires
        t.pending.len() == 0,
    ensures
        forall|i: int|
            0 <= i < push_all(t, found).pending.len() ==> found.contains(
                #[trigger] push_all(t, found).pending[i],
            ) && !t.seen.contains(domain_of(push_all(t, found).pending[i])),
    decreases found.len(),
{
    if found.len() > 0 {
        let init = found.drop_last();
        lemma_admitted_are_new(t, init);
        lemma_seen_grows(t, init);
        let before = push_all(t, init);
        assert forall|i: int| 0 <= i < push_all(t, found).pending.len() implies found.contains(
            #[trigger] push_all(t, found).pending[i],
        ) && !t.seen.contains(domain_of(push_all(t, found).pending[i])) by {
            if i < before.pending.len() {
                assert(init.contains(before.pending[i]));
                let k = choose|k: int| 0 <= k < init.len() && init[k] == before.pending[i];
                assert(found[k] == init[k]);
            } else {
                assert(found[found.len() - 1] == found.last());
            }
        }
    }
}

/// Layer barrier: after a layer's drain, the URLs that the layer's workers
/// push reach only the next drain, and none of them is a URL of the layer
/// itself.
pub proof fn law_layer_barrier(s: QueueState, found: Seq<Seq<char>>)
    requires
        frontier_ok(s),
    ensures
        forall|u: Seq<char>|
            #[trigger] push_all(drained_state(s), found).pending.contains(u) ==> found.contains(u)
                && !s.pending.contains(u),
{
    let next = push_all(drained_state(s), found);
    lemma_admitted_are_new(drained_state(s), found);
    assert forall|u: Seq<char>| #[trigger] next.pending.contains(u) implies found.contains(u)
        && !s.pending.contains(u) by {
        let i = choose|i: int| 0 <= i < next.pending.len() && next.pending[i] == u;
        assert(!s.seen.contains(domain_of(next.pending[i])));
        if s.pending.contains(u) {
            let j = choose|j: int| 0 <= j < s.pending.len() && s.pending[j] == u;
            assert(s.seen.contains(domain_of(s.pending[j])));
        }
    }
}

proof fn lemma_seen_domain_blocks(t: QueueState, found: Seq<Seq<char>>, d: Seq<char>)
    requires
        t.seen.contains(d),
        forall|i: int| 0 <= i < found.len() ==> domain_of(#[trigger] found[i]) == d,
    ensures
        push_all(t, found) == t,
    decreases found.len(),
{
    if found.len() > 0 {
        lemma_seen_domain_blocks(t, found.drop_last(), d);
        assert(domain_of(found[found.len() - 1]) == d);
    }
}

proof fn lemma_one_domain_seeds(seeds: Seq<Seq<char>>, d: Seq<char>, k: int)
    requires
        1 <= k <= seeds.len(),
        forall|i: int| 0 <= i < seeds.len() ==> domain_of(#[trigger] seeds[i]) == d,
    ensures
        push_all(empty_state(), seeds.take(k)) == (QueueState {
            pending: seq![seeds[0]],
            seen: set![d],
        }),
    decreases k,
{
    let init = seeds.take(k).drop_last();
    if k == 1 {
        assert(init =~= Seq::<Seq<char>>::empty());
        assert(domain_of(seeds[0]) == d);
        assert(seeds.take(k).last() == seeds[0]);
        assert(push_all(empty_state(), init) == empty_state());
        assert(push_all(empty_state(), seeds.take(k)) == push_state(empty_state(), seeds[0]));
        assert(push_state(empty_state(), seeds[0]).pending =~= seq![seeds[0]]);
        assert(push_state(empty_state(), seeds[0]).seen =~= set![d]);
        assert(push_all(empty_state(), seeds.take(k)) =~= (QueueState {
            pending: seq![seeds[0]],
            seen: set![d],
        }));
    } else {
        lemma_one_domain_seeds(seeds, d, k - 1);
        assert(init =~= seeds.take(k - 1));
        assert(domain_of(seeds[k - 1]) == d);
    }
}

/// Crawl termination: a frontier seeded with URLs that all share one domain
/// key holds only the first of them; after that layer is drained, every URL
/// of the same domain that its workers push is dropped, so the next drain
/// finds the frontier empty.
pub proof fn law_single_domain_single_layer(
    seeds: Seq<Seq<char>>,
    found: Seq<Seq<char>>,
    d: Seq<char>,
)
    requires
        seeds.len() > 0,
        forall|i: int| 0 <= i < seeds.len() ==> domain_of(#[trigger] seeds[i]) == d,
        forall|i: int| 0 <= i < found.len() ==> domain_of(#[trigger] found[i]) == d,
    ensures
        push_all(empty_state(), seeds).pending == seq![seeds[0]],
        push_all(drained_state(push_all(empty_state(), seeds)), found).pending.len() == 0,
{
    lemma_one_domain_seeds(seeds, d, seeds.len() as int);
    assert(seeds.take(seeds.len() as int) =~= seeds);
    let s = push_all(empty_state(), seeds);
    lemma_seen_domain_blocks(drained_state(s), found, d);
}

} // verus!
