//! The crawl's decisions, apart from the fetching itself: which paths have
//! been claimed, which wait, how many fetches run, and what a finished fetch
//! leads to. The caller runs the fetches and reports each outcome back.

use vstd::prelude::*;
use std::collections::VecDeque;
use vstd::hash_set::StringHashSet;
use crate::parsing::{dedup, lemma_dedup, views, FormatError};
use crate::paths::{candidates_of, derive_candidates};

verus! {

/// The set of paths already scheduled: each path is claimed once at most.
pub struct Frontier {
    claimed: StringHashSet,
}

impl View for Frontier {
    type V = Set<Seq<char>>;

    closed spec fn view(&self) -> Set<Seq<char>> {
        self.claimed@
    }
}

impl Frontier {
    pub fn new() -> (r: Frontier)
        ensures
            r@ == Set::<Seq<char>>::empty(),
    {
        Frontier { claimed: StringHashSet::new() }
    }

    /// Claims `path`: true where it was not claimed before, so that it is to
    /// be fetched; false where it was.
    pub fn try_claim(&mut self, path: &str) -> (r: bool)
        ensures
            r == !old(self)@.contains(path@),
            final(self)@ == old(self)@.insert(path@),
    {
        self.claimed.insert(path.to_owned())
    }

    pub fn contains(&self, path: &str) -> (r: bool)
        ensures
            r == self@.contains(path@),
    {
        self.claimed.contains(path)
    }
}

/// Two claims of one new path in a row: by `try_claim`, which returns
/// `!claimed.contains(path)` and then holds `claimed.insert(path)`, the
/// first returns true and the second false.
pub proof fn lemma_claim_twice(claimed: Set<Seq<char>>, path: Seq<char>)
    requires
        !claimed.contains(path),
    ensures
        (!claimed.contains(path)) == true,
        (!claimed.insert(path).contains(path)) == false,
{
}

/// Claims the paths of `c` in order, starting from the claimed set `s`:
/// the claimed set after, and the paths newly claimed, in order.
pub open spec fn claim_seq(s: Set<Seq<char>>, c: Seq<Seq<char>>) -> (Set<Seq<char>>, Seq<Seq<char>>)
    decreases c.len(),
{
    if c.len() == 0 {
        (s, Seq::empty())
    } else {
        let r = claim_seq(s, c.drop_last());
        if r.0.contains(c.last()) {
            r
        } else {
            (r.0.insert(c.last()), r.1.push(c.last()))
        }
    }
}

/// After claiming `c`, the claimed set is `s` and `c` together, and the
/// newly claimed paths are those of `c` that `s` lacked, each once.
pub proof fn lemma_claim_seq(s: Set<Seq<char>>, c: Seq<Seq<char>>)
    ensures
        forall|x: Seq<char>| #[trigger]
            claim_seq(s, c).0.contains(x) <==> (s.contains(x) || c.contains(x)),
        forall|x: Seq<char>| #[trigger]
            claim_seq(s, c).1.contains(x) <==> (c.contains(x) && !s.contains(x)),
        claim_seq(s, c).1.no_duplicates(),
    decreases c.len(),
{
    if c.len() > 0 {
        let p = c.drop_last();
        lemma_claim_seq(s, p);
        let r = claim_seq(s, p);
        assert forall|x: Seq<char>| c.contains(x) <==> (p.contains(x) || x == c.last()) by {
            if p.contains(x) {
                let i = choose|i: int| 0 <= i < p.len() && p[i] == x;
                assert(c[i] == x);
            }
            if x == c.last() {
                assert(c[c.len() - 1] == x);
            }
            if c.contains(x) {
                let i = choose|i: int| 0 <= i < c.len() && c[i] == x;
                if i < p.len() {
                    assert(p[i] == x);
                }
            }
        }
        if !r.0.contains(c.last()) {
            let f = r.1.push(c.last());
            assert(!p.contains(c.last()));
            assert(!r.1.contains(c.last()));
            assert forall|a: int, b: int| 0 <= a < b < f.len() implies f[a] != f[b] by {
                if b == f.len() - 1 {
                    assert(r.1[a] == f[a]);
                }
            }
            assert forall|x: Seq<char>| f.contains(x) <==> (r.1.contains(x) || x == c.last()) by {
                if r.1.contains(x) {
                    let i = choose|i: int| 0 <= i < r.1.len() && r.1[i] == x;
                    assert(f[i] == x);
                }
                if x == c.last() {
                    assert(f[r.1.len() as int] == x);
                }
                if f.contains(x) {
                    let i = choose|i: int| 0 <= i < f.len() && f[i] == x;
                    if i < r.1.len() {
                        assert(r.1[i] == x);
                    }
                }
            }
        }
    }
}

/// The paths that every crawl starts from.
pub open spec fn seeds() -> Seq<Seq<char>> {
    seq![
        "info/exclude"@,
        "logs/HEAD"@,
        "objects/info/packs"@,
        "config"@,
        "COMMIT_EDITMSG"@,
        "description"@,
        "FETCH_HEAD"@,
        "HEAD"@,
        "index"@,
        "ORIG_HEAD"@,
        "packed-refs"@,
        "refs/remotes/origin/HEAD"@,
    ]
}

/// The paths that every crawl starts from, in order.
pub fn seed_paths() -> (r: Vec<String>)
    ensures
        views(r@) == seeds(),
{
    let r = vec![
        "info/exclude".to_owned(),
        "logs/HEAD".to_owned(),
        "objects/info/packs".to_owned(),
        "config".to_owned(),
        "COMMIT_EDITMSG".to_owned(),
        "description".to_owned(),
        "FETCH_HEAD".to_owned(),
        "HEAD".to_owned(),
        "index".to_owned(),
        "ORIG_HEAD".to_owned(),
        "packed-refs".to_owned(),
        "refs/remotes/origin/HEAD".to_owned(),
    ];
    assert(views(r@) =~= seeds());
    r
}

/// How a fetch ended.
#[derive(Debug)]
pub enum FetchOutcome {
    Success(Vec<u8>),
    NotFound,
    TransportFailure(String),
}

/// The scheduler of a crawl. It hands out claimed paths to fetch, never more
/// than its limit at once, and turns each finished fetch into new claims.
pub struct Crawler {
    frontier: Frontier,
    queue: VecDeque<String>,
    in_flight: usize,
    max_tasks: usize,
    issued: Ghost<Set<Seq<char>>>,
}

impl Crawler {
    /// Every path claimed so far.
    pub closed spec fn claimed(&self) -> Set<Seq<char>> {
        self.frontier@
    }

    /// The claimed paths that wait to be fetched, in order.
    pub closed spec fn pending(&self) -> Seq<Seq<char>> {
        views(self.queue@)
    }

    /// The number of fetches handed out and not yet reported back.
    pub closed spec fn running(&self) -> nat {
        self.in_flight as nat
    }

    /// The most fetches that may run at once.
    pub closed spec fn limit(&self) -> nat {
        self.max_tasks as nat
    }

    /// Every path handed out to fetch so far.
    pub closed spec fn handed_out(&self) -> Set<Seq<char>> {
        self.issued@
    }

    pub open spec fn wf(&self) -> bool {
        &&& 1 <= self.limit()
        &&& self.running() <= self.limit()
        &&& self.pending().no_duplicates()
        &&& forall|p: Seq<char>| #[trigger]
            self.pending().contains(p) ==> self.claimed().contains(p) && !self.handed_out().contains(p)
        &&& forall|p: Seq<char>| #[trigger]
            self.handed_out().contains(p) ==> self.claimed().contains(p)
    }

    /// Starts a crawl that runs at most `max_tasks` fetches at once, with
    /// the seed paths claimed and waiting.
    pub fn new(max_tasks: usize) -> (r: Crawler)
        requires
            max_tasks >= 1,
        ensures
            r.wf(),
            r.limit() == max_tasks,
            r.running() == 0,
            r.handed_out() == Set::<Seq<char>>::empty(),
            r.pending() == dedup(seeds()),
            forall|p: Seq<char>| r.claimed().contains(p) <==> seeds().contains(p),
    {
        let start = seed_paths();
        let mut c = Crawler {
            frontier: Frontier::new(),
            queue: VecDeque::new(),
            in_flight: 0,
            max_tasks,
            issued: Ghost(Set::empty()),
        };
        proof {
            assert(views(c.queue@) =~= claim_seq(Set::empty(), views(start@).subrange(0, 0)).1);
            assert(c.frontier@ =~= claim_seq(Set::empty(), views(start@).subrange(0, 0)).0);
        }
        let mut i: usize = 0;
        while i < start.len()
            invariant
                i <= start@.len(),
                views(start@) == seeds(),
                c.max_tasks == max_tasks,
                c.in_flight == 0,
                c.issued@ == Set::<Seq<char>>::empty(),
                (c.frontier@, views(c.queue@)) == claim_seq(
                    Set::empty(),
                    views(start@).subrange(0, i as int),
                ),
            decreases start@.len() - i,
        {
            let ghost before = views(c.queue@);
            let s = start[i].as_str();
            proof {
                let q = views(start@).subrange(0, i + 1);
                assert(q.drop_last() =~= views(start@).subrange(0, i as int));
                assert(q.last() == s@);
            }
            if c.frontier.try_claim(s) {
                c.queue.push_back(s.to_owned());
                assert(views(c.queue@) =~= before.push(s@));
            }
            i = i + 1;
        }
        proof {
            assert(views(start@).subrange(0, start@.len() as int) =~= seeds());
            lemma_claim_seq(Set::empty(), seeds());
            lemma_claim_from_empty(seeds());
            assert(c.pending() == claim_seq(Set::<Seq<char>>::empty(), seeds()).1);
            assert(c.claimed() == claim_seq(Set::<Seq<char>>::empty(), seeds()).0);
        }
        c
    }

    /// Hands out the next waiting path to fetch, where fewer than the limit
    /// run; otherwise nothing, and nothing changes.
    pub fn next_fetch(&mut self) -> (r: Option<String>)
        requires
            old(self).wf(),
        ensures
            final(self).wf(),
            final(self).limit() == old(self).limit(),
            final(self).claimed() == old(self).claimed(),
            old(self).running() < old(self).limit() && old(self).pending().len() > 0 ==> {
                &&& r matches Some(p)
                &&& p@ == old(self).pending()[0]
                &&& !old(self).handed_out().contains(p@)
                &&& final(self).pending() == old(self).pending().drop_first()
                &&& final(self).running() == old(self).running() + 1
                &&& final(self).handed_out() == old(self).handed_out().insert(p@)
            },
            !(old(self).running() < old(self).limit() && old(self).pending().len() > 0) ==> {
                &&& r is None
                &&& final(self).pending() == old(self).pending()
                &&& final(self).running() == old(self).running()
                &&& final(self).handed_out() == old(self).handed_out()
            },
    {
        if self.in_flight >= self.max_tasks || self.queue.len() == 0 {
            return None;
        }
        let ghost before = views(self.queue@);
        let p = self.queue.pop_front().unwrap();
        proof {
            assert(before.contains(before[0]));
            assert(views(self.queue@) =~= before.drop_first());
            assert forall|x: Seq<char>| #[trigger] views(self.queue@).contains(x) implies before.contains(x) && x != before[0] by {
                let i = choose|i: int| 0 <= i < views(self.queue@).len() && views(self.queue@)[i] == x;
                assert(before[i + 1] == x);
            }
            self.issued@ = self.issued@.insert(p@);
        }
        self.in_flight = self.in_flight + 1;
        Some(p)
    }

    /// Takes back the fetch of `path`, which has ended with `outcome`. A
    /// fetched file's content is read for further paths, and each that was
    /// not claimed yet is claimed and waits, in order. A failed fetch, or a
    /// file that cannot be read, leads nowhere.
    pub fn complete(&mut self, path: &str, outcome: &FetchOutcome) -> (r: Result<
        Vec<String>,
        FormatError,
    >)
        requires
            old(self).wf(),
            old(self).running() > 0,
        ensures
            final(self).wf(),
            final(self).limit() == old(self).limit(),
            final(self).running() == old(self).running() - 1,
            final(self).handed_out() == old(self).handed_out(),
            match outcome {
                FetchOutcome::Success(bytes) => match candidates_of(path@, bytes@) {
                    Ok(c) => {
                        &&& r matches Ok(v)
                        &&& views(v@) == claim_seq(old(self).claimed(), c).1
                        &&& final(self).claimed() == claim_seq(old(self).claimed(), c).0
                        &&& final(self).pending() == old(self).pending() + views(v@)
                    },
                    Err(e) => {
                        &&& r == Err::<Vec<String>, FormatError>(e)
                        &&& final(self).claimed() == old(self).claimed()
                        &&& final(self).pending() == old(self).pending()
                    },
                },
                _ => {
                    &&& r matches Ok(v)
                    &&& v@.len() == 0
                    &&& final(self).claimed() == old(self).claimed()
                    &&& final(self).pending() == old(self).pending()
                },
            },
    {
        self.in_flight = self.in_flight - 1;
        assert(self.pending() == old(self).pending());
        assert(self.claimed() == old(self).claimed());
        assert(self.handed_out() == old(self).handed_out());
        assert(self.wf());
        let bytes = match outcome {
            FetchOutcome::Success(b) => b,
            _ => {
                return Ok(Vec::new());
            },
        };
        let cands = match derive_candidates(path, bytes.as_slice()) {
            Ok(c) => c,
            Err(e) => {
                return Err(e);
            },
        };
        let ghost s0 = self.frontier@;
        let ghost q0 = views(self.queue@);
        assert(s0 == old(self).claimed());
        assert(q0 == old(self).pending());
        let mut fresh: Vec<String> = Vec::new();
        let mut i: usize = 0;
        proof {
            assert(views(cands@).subrange(0, 0) =~= Seq::<Seq<char>>::empty());
            assert(views(fresh@) =~= Seq::<Seq<char>>::empty());
            assert(q0 + views(fresh@) =~= q0);
        }
        while i < cands.len()
            invariant
                i <= cands@.len(),
                (self.frontier@, views(fresh@)) == claim_seq(s0, views(cands@).subrange(0, i as int)),
                views(self.queue@) == q0 + views(fresh@),
                self.max_tasks == old(self).max_tasks,
                self.in_flight == old(self).in_flight - 1,
                self.issued@ == old(self).issued@,
            decreases cands@.len() - i,
        {
            let p = cands[i].as_str();
            let ghost fv = views(fresh@);
            proof {
                let q = views(cands@).subrange(0, i + 1);
                assert(q.drop_last() =~= views(cands@).subrange(0, i as int));
                assert(q.last() == p@);
            }
            if self.frontier.try_claim(p) {
                let ghost qv = views(self.queue@);
                fresh.push(p.to_owned());
                self.queue.push_back(p.to_owned());
                assert(views(self.queue@) =~= qv.push(p@));
                assert(views(fresh@) =~= fv.push(p@));
                assert(views(self.queue@) =~= q0 + views(fresh@));
            }
            i = i + 1;
        }
        proof {
            let c = views(cands@);
            assert(c.subrange(0, c.len() as int) =~= c);
            lemma_claim_seq(s0, c);
            assert(self.claimed() == claim_seq(s0, c).0);
            let f = views(fresh@);
            assert(f == claim_seq(s0, c).1);
            let q = views(self.queue@);
            assert forall|x: Seq<char>| #[trigger] q.contains(x) implies q0.contains(x) || f.contains(x) by {
                let k = choose|k: int| 0 <= k < q.len() && q[k] == x;
                if k < q0.len() {
                    assert(q0[k] == x);
                } else {
                    assert(f[k - q0.len()] == x);
                }
            }
            assert forall|x: Seq<char>| #[trigger] q.contains(x) implies self.claimed().contains(x)
                && !self.handed_out().contains(x) by {
                if q0.contains(x) {
                    assert(old(self).pending().contains(x));
                    assert(s0.contains(x));
                    assert(claim_seq(s0, c).0.contains(x));
                } else {
                    assert(f.contains(x));
                    assert(claim_seq(s0, c).1.contains(x));
                    assert(claim_seq(s0, c).0.contains(x));
                    assert(!s0.contains(x));
                }
            }
            assert forall|x: Seq<char>| #[trigger] self.handed_out().contains(x) implies self.claimed().contains(x) by {
                assert(old(self).handed_out().contains(x));
                assert(s0.contains(x));
                assert(claim_seq(s0, c).0.contains(x));
            }
            assert forall|a: int, b: int| 0 <= a < b < q.len() implies q[a] != q[b] by {
                if b < q0.len() {
                } else if a >= q0.len() {
                    assert(f[a - q0.len()] == q[a]);
                    assert(f[b - q0.len()] == q[b]);
                } else {
                    assert(q0.contains(q[a]));
                    assert(f[b - q0.len()] == q[b]);
                    assert(f.contains(q[b]));
                }
            }
        }
        Ok(fresh)
    }

    /// Whether the crawl is over: nothing runs and nothing waits.
    pub fn is_done(&self) -> (r: bool)
        ensures
            r == (self.running() == 0 && self.pending().len() == 0),
    {
        self.in_flight == 0 && self.queue.len() == 0
    }

    /// The number of fetches running.
    pub fn in_flight(&self) -> (r: usize)
        ensures
            r == self.running(),
    {
        self.in_flight
    }

    /// The number of paths waiting.
    pub fn pending_count(&self) -> (r: usize)
        ensures
            r == self.pending().len(),
    {
        self.queue.len()
    }

    /// The most fetches that may run at once.
    pub fn max_tasks(&self) -> (r: usize)
        ensures
            r == self.limit(),
    {
        self.max_tasks
    }

    /// Whether `path` has been claimed.
    pub fn is_claimed(&self, path: &str) -> (r: bool)
        ensures
            r == self.claimed().contains(path@),
    {
        self.frontier.contains(path)
    }
}

/// Claiming from nothing keeps each path at its first place.
proof fn lemma_claim_from_empty(c: Seq<Seq<char>>)
    ensures
        claim_seq(Set::<Seq<char>>::empty(), c).1 == dedup(c),
    decreases c.len(),
{
    if c.len() > 0 {
        lemma_claim_from_empty(c.drop_last());
        lemma_claim_seq(Set::<Seq<char>>::empty(), c.drop_last());
        lemma_dedup(c.drop_last());
    }
}

/// However the crawl goes, no more fetches run at once than the limit.
pub proof fn lemma_in_flight_bounded(c: Crawler)
    requires
        c.wf(),
    ensures
        c.running() <= c.limit(),
{
}

/// A path once handed out to fetch is claimed and waits no more, so it is
/// never handed out again: what `complete` adds to the waiting paths is
/// never already claimed.
pub proof fn lemma_handed_out_once(c: Crawler, p: Seq<char>)
    requires
        c.wf(),
        c.handed_out().contains(p),
    ensures
        c.claimed().contains(p),
        !c.pending().contains(p),
{
}

} // verus!
