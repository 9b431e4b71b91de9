//! The caching coordinator: owns a time-indexed cache of analysis results
//! keyed by repository identity, answers a request from the cache while the
//! entry is fresh, and otherwise decides that the mirror must be updated and
//! the history re-analyzed. It is driven by a single sequential worker; the
//! mirror update itself happens outside and its outcome is handed back in.

use vstd::prelude::*;

use std::sync::Arc;

use crate::parse::{MergeCommitView, ParseError};
use crate::repo::{analyze_repo, spec_analyze, Repo};
use crate::strutil::seq_views;
use crate::{RepoId, RepoIdView};

verus! {

/// The default freshness window, in seconds: five minutes.
pub const DEFAULT_CACHE_TIMEOUT_SECS: u64 = 300;

/// The second count denoted by a freshness-window setting: an integer second
/// count with a mandatory trailing `s`, as in `"300s"`.
pub open spec fn spec_parse_timeout(s: Seq<char>) -> Option<u64> {
    if s.len() >= 1 && s.last() == 's' {
        let ds = s.subrange(0, s.len() - 1);
        if ds.len() > 0 && crate::strutil::all_digits(ds) && crate::strutil::digits_val(ds)
            <= u64::MAX {
            Some(crate::strutil::digits_val(ds) as u64)
        } else {
            None
        }
    } else {
        None
    }
}

/// Parses a freshness-window setting (`"300s"`) as a second count.
pub fn parse_timeout_seconds(s: &str) -> (r: Option<u64>)
    ensures
        r == spec_parse_timeout(s@),
{
    let slen = s.unicode_len();
    if slen == 0 {
        return None;
    }
    if s.get_char(slen - 1) != 's' {
        return None;
    }
    let ds = s.substring_char(0, slen - 1);
    crate::strutil::parse_decimal_u64(ds)
}

/// Why a mirror update failed: an IO failure, or a nonzero exit of the
/// external version-control tool. The detail is the error's rendered text.
#[derive(Debug)]
pub enum MirrorError {
    Io(String),
    Shell(String),
}

/// Why an analysis request failed.
#[derive(Debug)]
pub enum AnalyzeRepoError {
    Io(String),
    Shell(String),
    Parse(ParseError),
}

/// The error an analysis request reports for a failed mirror update.
pub open spec fn mirror_to_analysis(e: MirrorError) -> AnalyzeRepoError {
    match e {
        MirrorError::Io(s) => AnalyzeRepoError::Io(s),
        MirrorError::Shell(s) => AnalyzeRepoError::Shell(s),
    }
}

/// One cached analysis with the time it was computed at. Replaced only as a
/// whole, never partially updated.
pub struct CacheEntry {
    pub result: Arc<Repo>,
    pub computed_at: u64,
}

/// The model of the cache: identity, analysis content, computation time.
pub open spec fn cache_lookup(
    c: Seq<(RepoIdView, Seq<MergeCommitView>, u64)>,
    id: RepoIdView,
) -> Option<(Seq<MergeCommitView>, u64)>
    decreases c.len(),
{
    if c.len() == 0 {
        None
    } else if c[0].0 == id {
        Some((c[0].1, c[0].2))
    } else {
        cache_lookup(c.subrange(1, c.len() as int), id)
    }
}

/// No identity occurs twice in the cache.
pub open spec fn cache_keys_unique(c: Seq<(RepoIdView, Seq<MergeCommitView>, u64)>) -> bool {
    forall|i: int, j: int| 0 <= i < j < c.len() ==> (#[trigger] c[i].0) != (#[trigger] c[j].0)
}

/// An entry computed at `entry_time` is still fresh at `now`.
pub open spec fn fresh_at(entry_time: u64, now: u64, timeout: u64) -> bool {
    entry_time <= now && now - entry_time < timeout
}

/// The cached content a request at `now` is answered with, if any: the entry
/// must exist and still be fresh.
pub open spec fn spec_fresh_result(
    c: Seq<(RepoIdView, Seq<MergeCommitView>, u64)>,
    timeout: u64,
    id: RepoIdView,
    now: u64,
) -> Option<Seq<MergeCommitView>> {
    match cache_lookup(c, id) {
        Some(entry) => if fresh_at(entry.1, now, timeout) {
            Some(entry.0)
        } else {
            None
        },
        None => None,
    }
}

proof fn lemma_cache_lookup_found(c: Seq<(RepoIdView, Seq<MergeCommitView>, u64)>, i: int)
    requires
        cache_keys_unique(c),
        0 <= i < c.len(),
    ensures
        cache_lookup(c, c[i].0) == Some((c[i].1, c[i].2)),
    decreases i,
{
    if i > 0 {
        let c1 = c.subrange(1, c.len() as int);
        assert(cache_keys_unique(c1)) by {
            assert(forall|a: int, b: int|
                0 <= a < b < c1.len() ==> c1[a] == c[a + 1] && c1[b] == c[b + 1]);
        }
        lemma_cache_lookup_found(c1, i - 1);
        assert(c1[i - 1] == c[i]);
        assert(c[0].0 != c[i].0);
    }
}

proof fn lemma_cache_lookup_absent(c: Seq<(RepoIdView, Seq<MergeCommitView>, u64)>, id: RepoIdView)
    requires
        forall|i: int| 0 <= i < c.len() ==> (#[trigger] c[i].0) != id,
    ensures
        cache_lookup(c, id) == None::<(Seq<MergeCommitView>, u64)>,
    decreases c.len(),
{
    if c.len() > 0 {
        let c1 = c.subrange(1, c.len() as int);
        assert(forall|i: int| 0 <= i < c1.len() ==> (#[trigger] c1[i]) == c[i + 1]);
        lemma_cache_lookup_absent(c1, id);
    }
}

proof fn lemma_cache_lookup_update(
    c: Seq<(RepoIdView, Seq<MergeCommitView>, u64)>,
    i: int,
    v: Seq<MergeCommitView>,
    t: u64,
)
    requires
        cache_keys_unique(c),
        0 <= i < c.len(),
    ensures
        cache_keys_unique(c.update(i, (c[i].0, v, t))),
        cache_lookup(c.update(i, (c[i].0, v, t)), c[i].0) == Some((v, t)),
        forall|u: RepoIdView|
            u != c[i].0 ==> #[trigger] cache_lookup(c.update(i, (c[i].0, v, t)), u)
                == cache_lookup(c, u),
{
    let c2 = c.update(i, (c[i].0, v, t));
    assert(cache_keys_unique(c2)) by {
        assert(forall|a: int| 0 <= a < c.len() ==> (#[trigger] c2[a].0) == c[a].0);
    }
    lemma_cache_lookup_found(c2, i);
    assert forall|u: RepoIdView| u != c[i].0 implies #[trigger] cache_lookup(c2, u)
        == cache_lookup(c, u) by {
        if exists|j: int| 0 <= j < c.len() && (#[trigger] c[j].0) == u {
            let j = choose|j: int| 0 <= j < c.len() && (#[trigger] c[j].0) == u;
            lemma_cache_lookup_found(c, j);
            lemma_cache_lookup_found(c2, j);
            assert(c2[j] == c[j]);
        } else {
            assert(forall|j: int| 0 <= j < c.len() ==> (#[trigger] c[j].0) != u);
            assert(forall|j: int| 0 <= j < c2.len() ==> (#[trigger] c2[j].0) != u) by {
                assert(forall|a: int| 0 <= a < c.len() ==> (#[trigger] c2[a].0) == c[a].0);
            }
            lemma_cache_lookup_absent(c, u);
            lemma_cache_lookup_absent(c2, u);
        }
    }
}

proof fn lemma_cache_lookup_push(
    c: Seq<(RepoIdView, Seq<MergeCommitView>, u64)>,
    k: RepoIdView,
    v: Seq<MergeCommitView>,
    t: u64,
)
    requires
        cache_keys_unique(c),
        forall|i: int| 0 <= i < c.len() ==> (#[trigger] c[i].0) != k,
    ensures
        cache_keys_unique(c.push((k, v, t))),
        cache_lookup(c.push((k, v, t)), k) == Some((v, t)),
        forall|u: RepoIdView|
            u != k ==> #[trigger] cache_lookup(c.push((k, v, t)), u) == cache_lookup(c, u),
{
    let c2 = c.push((k, v, t));
    assert(cache_keys_unique(c2)) by {
        assert(forall|a: int| 0 <= a < c.len() ==> (#[trigger] c2[a]) == c[a]);
        assert(c2[c.len() as int].0 == k);
    }
    assert(c2[c.len() as int] == (k, v, t));
    lemma_cache_lookup_found(c2, c.len() as int);
    assert forall|u: RepoIdView| u != k implies #[trigger] cache_lookup(c2, u) == cache_lookup(
        c,
        u,
    ) by {
        if exists|j: int| 0 <= j < c.len() && (#[trigger] c[j].0) == u {
            let j = choose|j: int| 0 <= j < c.len() && (#[trigger] c[j].0) == u;
            lemma_cache_lookup_found(c, j);
            lemma_cache_lookup_found(c2, j);
            assert(c2[j] == c[j]);
        } else {
            assert(forall|j: int| 0 <= j < c.len() ==> (#[trigger] c[j].0) != u);
            assert(forall|j: int| 0 <= j < c2.len() ==> (#[trigger] c2[j].0) != u) by {
                assert(forall|a: int| 0 <= a < c.len() ==> (#[trigger] c2[a]) == c[a]);
                assert(c2[c.len() as int].0 == k);
            }
            lemma_cache_lookup_absent(c, u);
            lemma_cache_lookup_absent(c2, u);
        }
    }
}

/// Relies on std's `Arc::clone`, which vstd does not specify: the returned
/// handle refers to the same analysis result, never a copy.
#[verifier::external_body]
fn share_repo(r: &Arc<Repo>) -> (res: Arc<Repo>)
    ensures
        res == *r,
{
    Arc::clone(r)
}

/// What the cache says about a request: answer with a still-fresh shared
/// result, or update the mirror and re-analyze.
pub enum CacheDecision {
    Fresh(Arc<Repo>),
    Refresh,
}

/// The coordinator state: the cache table and the freshness window (seconds).
pub struct Coordinator {
    cache: Vec<(RepoId, CacheEntry)>,
    cache_timeout: u64,
}

impl Coordinator {
    /// The configured freshness window.
    pub closed spec fn timeout(&self) -> u64 {
        self.cache_timeout
    }

    /// The model of the cache table.
    pub closed spec fn cache_model(&self) -> Seq<(RepoIdView, Seq<MergeCommitView>, u64)> {
        Seq::new(
            self.cache@.len(),
            |i: int|
                (self.cache@[i].0@, self.cache@[i].1.result@, self.cache@[i].1.computed_at),
        )
    }

    /// Identities are unique and every cached analysis is well-formed.
    pub closed spec fn wf(&self) -> bool {
        &&& cache_keys_unique(self.cache_model())
        &&& forall|i: int| 0 <= i < self.cache@.len() ==> (*#[trigger] self.cache@[i].1.result).wf()
    }

    /// A coordinator with an empty cache.
    pub fn new(cache_timeout: u64) -> (c: Coordinator)
        ensures
            c.wf(),
            c.timeout() == cache_timeout,
            c.cache_model() == Seq::<(RepoIdView, Seq<MergeCommitView>, u64)>::empty(),
    {
        let c = Coordinator { cache: Vec::new(), cache_timeout };
        proof {
            assert(c.cache_model() =~= Seq::<(RepoIdView, Seq<MergeCommitView>, u64)>::empty());
        }
        c
    }

    /// The first cache slot for `id`, if any.
    fn cache_find(&self, id: &RepoId) -> (r: Option<usize>)
        ensures
            match r {
                Some(i) => i < self.cache@.len() && self.cache@[i as int].0@ == id@ && forall|j: int|
                    0 <= j < i ==> (#[trigger] self.cache@[j].0@) != id@,
                None => forall|j: int|
                    0 <= j < self.cache@.len() ==> (#[trigger] self.cache@[j].0@) != id@,
            },
    {
        let mut i: usize = 0;
        while i < self.cache.len()
            invariant
                i <= self.cache@.len(),
                forall|j: int| 0 <= j < i ==> (#[trigger] self.cache@[j].0@) != id@,
            decreases self.cache@.len() - i,
        {
            if self.cache[i].0 == *id {
                return Some(i);
            }
            i += 1;
        }
        None
    }

    /// Answers a request at time `now` from the cache if the entry for `id`
    /// exists and is still fresh; otherwise asks for a refresh. Reads only.
    pub fn decide(&self, id: &RepoId, now: u64) -> (d: CacheDecision)
        requires
            self.wf(),
        ensures
            match d {
                CacheDecision::Fresh(r) => spec_fresh_result(
                    self.cache_model(),
                    self.timeout(),
                    id@,
                    now,
                ) == Some(r@) && (*r).wf(),
                CacheDecision::Refresh => spec_fresh_result(
                    self.cache_model(),
                    self.timeout(),
                    id@,
                    now,
                ) is None,
            },
    {
        match self.cache_find(id) {
            None => {
                proof {
                    let cm = self.cache_model();
                    assert(forall|j: int| 0 <= j < cm.len() ==> (#[trigger] cm[j].0) != id@);
                    lemma_cache_lookup_absent(cm, id@);
                }
                CacheDecision::Refresh
            },
            Some(i) => {
                proof {
                    assert(self.cache_model()[i as int].0 == id@);
                    lemma_cache_lookup_found(self.cache_model(), i as int);
                }
                let t = self.cache[i].1.computed_at;
                if t <= now && now - t < self.cache_timeout {
                    CacheDecision::Fresh(share_repo(&self.cache[i].1.result))
                } else {
                    CacheDecision::Refresh
                }
            },
        }
    }

    /// Stores a finished analysis for `id` at time `now`, replacing any prior
    /// entry atomically and touching no other identity.
    fn store(&mut self, id: &RepoId, result: Arc<Repo>, now: u64)
        requires
            old(self).wf(),
            (*result).wf(),
        ensures
            final(self).wf(),
            final(self).timeout() == old(self).timeout(),
            cache_lookup(final(self).cache_model(), id@) == Some((result@, now)),
            forall|u: RepoIdView|
                u != id@ ==> #[trigger] cache_lookup(final(self).cache_model(), u) == cache_lookup(
                    old(self).cache_model(),
                    u,
                ),
    {
        let ghost c0 = self.cache_model();
        match self.cache_find(id) {
            Some(i) => {
                let (k, _) = self.cache.remove(i);
                self.cache.insert(i, (k, CacheEntry { result, computed_at: now }));
                proof {
                    assert(self.cache_model() =~= c0.update(i as int, (c0[i as int].0, result@, now)));
                    lemma_cache_lookup_update(c0, i as int, result@, now);
                }
            },
            None => {
                self.cache.push((id.clone(), CacheEntry { result, computed_at: now }));
                proof {
                    assert(self.cache_model() =~= c0.push((id@, result@, now)));
                    assert(forall|j: int|
                        0 <= j < c0.len() ==> (#[trigger] c0[j].0) != id@);
                    lemma_cache_lookup_push(c0, id@, result@, now);
                }
            },
        }
    }

    /// Finishes a request whose cache decision was a refresh: a successful
    /// mirror update hands in the raw log lines, which are analyzed and
    /// stored under `id` with the current time; a failed one reports the
    /// corresponding error and leaves the whole cache exactly as it was, so a
    /// stale entry survives a failed refresh.
    pub fn handle_outcome(
        &mut self,
        id: &RepoId,
        outcome: Result<Vec<String>, MirrorError>,
        now: u64,
    ) -> (r: Result<Arc<Repo>, AnalyzeRepoError>)
        requires
            old(self).wf(),
        ensures
            final(self).wf(),
            final(self).timeout() == old(self).timeout(),
            match outcome {
                Result::Err(e) => final(self).cache_model() == old(self).cache_model() && r
                    == Result::<Arc<Repo>, AnalyzeRepoError>::Err(mirror_to_analysis(e)),
                Result::Ok(lines) => {
                    &&& match r {
                        Result::Ok(res) => res@ == spec_analyze(seq_views(lines@)) && (*res).wf(),
                        Result::Err(_) => false,
                    }
                    &&& cache_lookup(final(self).cache_model(), id@) == Some(
                        (spec_analyze(seq_views(lines@)), now),
                    )
                    &&& forall|u: RepoIdView|
                        u != id@ ==> #[trigger] cache_lookup(final(self).cache_model(), u)
                            == cache_lookup(old(self).cache_model(), u)
                },
            },
    {
        match outcome {
            Result::Err(e) => Result::Err(
                match e {
                    MirrorError::Io(s) => AnalyzeRepoError::Io(s),
                    MirrorError::Shell(s) => AnalyzeRepoError::Shell(s),
                },
            ),
            Result::Ok(lines) => {
                let repo = analyze_repo(&lines);
                let arc = Arc::new(repo);
                let res = share_repo(&arc);
                self.store(id, arc, now);
                Result::Ok(res)
            },
        }
    }
}

/// `id` is on the allow list.
pub open spec fn spec_allowed(allow: Seq<RepoId>, id: RepoIdView) -> bool {
    exists|i: int| 0 <= i < allow.len() && (#[trigger] allow[i])@ == id
}

/// Whether the allow list contains `id`.
pub fn allowed(allow: &Vec<RepoId>, id: &RepoId) -> (r: bool)
    ensures
        r == spec_allowed(allow@, id@),
{
    let mut i: usize = 0;
    while i < allow.len()
        invariant
            i <= allow@.len(),
            forall|j: int| 0 <= j < i ==> (#[trigger] allow@[j])@ != id@,
        decreases allow@.len() - i,
    {
        if allow[i] == *id {
            return true;
        }
        i += 1;
    }
    false
}

/// What a screened request is answered with.
pub enum RequestDecision {
    /// The identity is not on the allow list: rejected outright.
    Forbidden,
    /// Answered from the cache with the shared, still-fresh result.
    Fresh(Arc<Repo>),
    /// The mirror must be updated and the history re-analyzed.
    Refresh,
}

/// Screens one analysis request: an identity absent from the allow list is
/// rejected before any mirror or cache interaction (this function only reads
/// the coordinator and decides); an allowed one is answered by the cache, or
/// marked for a refresh.
pub fn screen_request(allow: &Vec<RepoId>, coord: &Coordinator, id: &RepoId, now: u64) -> (d:
    RequestDecision)
    requires
        coord.wf(),
    ensures
        match d {
            RequestDecision::Forbidden => !spec_allowed(allow@, id@),
            RequestDecision::Fresh(r) => spec_allowed(allow@, id@) && spec_fresh_result(
                coord.cache_model(),
                coord.timeout(),
                id@,
                now,
            ) == Some(r@) && (*r).wf(),
            RequestDecision::Refresh => spec_allowed(allow@, id@) && spec_fresh_result(
                coord.cache_model(),
                coord.timeout(),
                id@,
                now,
            ) is None,
        },
{
    if !allowed(allow, id) {
        return RequestDecision::Forbidden;
    }
    match coord.decide(id, now) {
        CacheDecision::Fresh(r) => RequestDecision::Fresh(r),
        CacheDecision::Refresh => RequestDecision::Refresh,
    }
}

/// After a successful pass is stored at `t0`, a second request for the same
/// identity within the freshness window is answered from the cache with
/// exactly the stored shared result: the pair of requests triggers exactly
/// the one mirror update that stored the entry.
pub proof fn lemma_cache_hit_within_window(
    c: Seq<(RepoIdView, Seq<MergeCommitView>, u64)>,
    timeout: u64,
    id: RepoIdView,
    res: Seq<MergeCommitView>,
    t0: u64,
    t1: u64,
)
    requires
        cache_lookup(c, id) == Some((res, t0)),
        t0 <= t1,
        t1 - t0 < timeout,
    ensures
        spec_fresh_result(c, timeout, id, t1) == Some(res),
{
}

/// Once the freshness window has elapsed, the cache no longer answers for the
/// identity, so the next request triggers exactly one further mirror update;
/// the store that follows a successful pass carries the new timestamp.
pub proof fn lemma_stale_after_window(
    c: Seq<(RepoIdView, Seq<MergeCommitView>, u64)>,
    timeout: u64,
    id: RepoIdView,
    res: Seq<MergeCommitView>,
    t0: u64,
    t1: u64,
)
    requires
        cache_lookup(c, id) == Some((res, t0)),
        t0 <= t1,
        t1 - t0 >= timeout,
    ensures
        spec_fresh_result(c, timeout, id, t1) == None::<Seq<MergeCommitView>>,
{
}

} // verus!
