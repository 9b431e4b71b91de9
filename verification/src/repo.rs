//! Analysis of a full commit history: the ordered list of bot-merge records
//! plus two inverted indices mapping a username to the positions of the
//! records it authored or approved.

use vstd::prelude::*;

use crate::parse::{parse_merge_commit, spec_parse_line, MergeCommit, MergeCommitView};
use crate::strutil::seq_views;

verus! {

/// The sequence of views of a vector of records.
pub open spec fn merge_views(v: Seq<MergeCommit>) -> Seq<MergeCommitView> {
    Seq::new(v.len(), |i: int| v[i]@)
}

/// The records recovered from a line sequence, in line order: lines that are
/// no bot merge or fail to parse are skipped, never aborting the pass.
pub open spec fn spec_analyze(lines: Seq<Seq<char>>) -> Seq<MergeCommitView>
    decreases lines.len(),
{
    if lines.len() == 0 {
        Seq::empty()
    } else {
        spec_analyze(lines.drop_last()) + (match spec_parse_line(lines.last()) {
            Ok(Some(m)) => seq![m],
            _ => Seq::<MergeCommitView>::empty(),
        })
    }
}

/// How often `u` occurs in a list of usernames.
pub open spec fn count_in(s: Seq<Seq<char>>, u: Seq<char>) -> nat
    decreases s.len(),
{
    if s.len() == 0 {
        0
    } else {
        count_in(s.drop_last(), u) + if s.last() == u {
            1nat
        } else {
            0
        }
    }
}

/// The positions of the records authored by `u`, in record order.
pub open spec fn author_positions(ms: Seq<MergeCommitView>, u: Seq<char>) -> Seq<int>
    decreases ms.len(),
{
    if ms.len() == 0 {
        Seq::empty()
    } else {
        author_positions(ms.drop_last(), u) + (if ms.last().author == u {
            seq![ms.len() - 1]
        } else {
            Seq::<int>::empty()
        })
    }
}

/// The positions of the records approved by `u`, in record order, one entry
/// per occurrence of `u` in a record's approver list (duplicates by design).
pub open spec fn approver_positions(ms: Seq<MergeCommitView>, u: Seq<char>) -> Seq<int>
    decreases ms.len(),
{
    if ms.len() == 0 {
        Seq::empty()
    } else {
        approver_positions(ms.drop_last(), u) + Seq::new(
            count_in(ms.last().approved_by, u),
            |i: int| ms.len() - 1,
        )
    }
}

/// The records authored by `u`, in record order.
pub open spec fn authored_records(ms: Seq<MergeCommitView>, u: Seq<char>) -> Seq<MergeCommitView>
    decreases ms.len(),
{
    if ms.len() == 0 {
        Seq::empty()
    } else {
        authored_records(ms.drop_last(), u) + (if ms.last().author == u {
            seq![ms.last()]
        } else {
            Seq::<MergeCommitView>::empty()
        })
    }
}

/// The records approved by `u`, in record order, with multiplicity.
pub open spec fn approved_records(ms: Seq<MergeCommitView>, u: Seq<char>) -> Seq<MergeCommitView>
    decreases ms.len(),
{
    if ms.len() == 0 {
        Seq::empty()
    } else {
        approved_records(ms.drop_last(), u) + Seq::new(
            count_in(ms.last().approved_by, u),
            |i: int| ms.last(),
        )
    }
}

proof fn lemma_author_positions_records(ms: Seq<MergeCommitView>, u: Seq<char>)
    ensures
        author_positions(ms, u).len() == authored_records(ms, u).len(),
        forall|k: int|
            0 <= k < author_positions(ms, u).len() ==> 0 <= #[trigger] author_positions(ms, u)[k]
                < ms.len() && ms[author_positions(ms, u)[k]] == authored_records(ms, u)[k],
    decreases ms.len(),
{
    if ms.len() > 0 {
        lemma_author_positions_records(ms.drop_last(), u);
        assert(forall|p: int|
            0 <= p < ms.len() - 1 ==> ms.drop_last()[p] == ms[p]);
    }
}

proof fn lemma_approver_positions_records(ms: Seq<MergeCommitView>, u: Seq<char>)
    ensures
        approver_positions(ms, u).len() == approved_records(ms, u).len(),
        forall|k: int|
            0 <= k < approver_positions(ms, u).len() ==> 0 <= #[trigger] approver_positions(
                ms,
                u,
            )[k] < ms.len() && ms[approver_positions(ms, u)[k]] == approved_records(ms, u)[k],
    decreases ms.len(),
{
    if ms.len() > 0 {
        lemma_approver_positions_records(ms.drop_last(), u);
        assert(forall|p: int|
            0 <= p < ms.len() - 1 ==> ms.drop_last()[p] == ms[p]);
    }
}

/// The views of an index table: each username with its position list.
pub open spec fn tbl_views(t: Seq<(String, Vec<usize>)>) -> Seq<(Seq<char>, Seq<int>)> {
    Seq::new(t.len(), |i: int| (t[i].0@, Seq::new(t[i].1@.len(), |j: int| t[i].1@[j] as int)))
}

/// The position list that a table associates with `u`: empty if absent.
pub open spec fn tbl_lookup(t: Seq<(Seq<char>, Seq<int>)>, u: Seq<char>) -> Seq<int>
    decreases t.len(),
{
    if t.len() == 0 {
        Seq::empty()
    } else if t[0].0 == u {
        t[0].1
    } else {
        tbl_lookup(t.subrange(1, t.len() as int), u)
    }
}

/// No username occurs twice as a table key.
pub open spec fn tbl_keys_unique(t: Seq<(Seq<char>, Seq<int>)>) -> bool {
    forall|i: int, j: int| 0 <= i < j < t.len() ==> (#[trigger] t[i].0) != (#[trigger] t[j].0)
}

proof fn lemma_tbl_lookup_found(t: Seq<(Seq<char>, Seq<int>)>, i: int)
    requires
        tbl_keys_unique(t),
        0 <= i < t.len(),
    ensures
        tbl_lookup(t, t[i].0) == t[i].1,
    decreases i,
{
    if i > 0 {
        let t1 = t.subrange(1, t.len() as int);
        assert(tbl_keys_unique(t1)) by {
            assert(forall|a: int, b: int|
                0 <= a < b < t1.len() ==> t1[a] == t[a + 1] && t1[b] == t[b + 1]);
        }
        lemma_tbl_lookup_found(t1, i - 1);
        assert(t1[i - 1] == t[i]);
        assert(t[0].0 != t[i].0);
    }
}

proof fn lemma_tbl_lookup_absent(t: Seq<(Seq<char>, Seq<int>)>, u: Seq<char>)
    requires
        forall|i: int| 0 <= i < t.len() ==> (#[trigger] t[i].0) != u,
    ensures
        tbl_lookup(t, u) == Seq::<int>::empty(),
    decreases t.len(),
{
    if t.len() > 0 {
        let t1 = t.subrange(1, t.len() as int);
        assert(forall|i: int| 0 <= i < t1.len() ==> (#[trigger] t1[i]) == t[i + 1]);
        lemma_tbl_lookup_absent(t1, u);
    }
}

proof fn lemma_tbl_lookup_update(t: Seq<(Seq<char>, Seq<int>)>, i: int, v: Seq<int>)
    requires
        tbl_keys_unique(t),
        0 <= i < t.len(),
    ensures
        tbl_keys_unique(t.update(i, (t[i].0, v))),
        tbl_lookup(t.update(i, (t[i].0, v)), t[i].0) == v,
        forall|u: Seq<char>|
            u != t[i].0 ==> #[trigger] tbl_lookup(t.update(i, (t[i].0, v)), u) == tbl_lookup(t, u),
{
    let t2 = t.update(i, (t[i].0, v));
    assert(tbl_keys_unique(t2)) by {
        assert(forall|a: int| 0 <= a < t.len() ==> (#[trigger] t2[a].0) == t[a].0);
    }
    lemma_tbl_lookup_found(t2, i);
    assert forall|u: Seq<char>| u != t[i].0 implies #[trigger] tbl_lookup(t2, u) == tbl_lookup(
        t,
        u,
    ) by {
        if exists|j: int| 0 <= j < t.len() && (#[trigger] t[j].0) == u {
            let j = choose|j: int| 0 <= j < t.len() && (#[trigger] t[j].0) == u;
            lemma_tbl_lookup_found(t, j);
            lemma_tbl_lookup_found(t2, j);
            assert(t2[j] == t[j]);
        } else {
            assert(forall|j: int| 0 <= j < t.len() ==> (#[trigger] t[j].0) != u);
            assert(forall|j: int| 0 <= j < t2.len() ==> (#[trigger] t2[j].0) != u) by {
                assert(forall|a: int| 0 <= a < t.len() ==> (#[trigger] t2[a].0) == t[a].0);
            }
            lemma_tbl_lookup_absent(t, u);
            lemma_tbl_lookup_absent(t2, u);
        }
    }
}

proof fn lemma_tbl_lookup_push(t: Seq<(Seq<char>, Seq<int>)>, k: Seq<char>, v: Seq<int>)
    requires
        tbl_keys_unique(t),
        forall|i: int| 0 <= i < t.len() ==> (#[trigger] t[i].0) != k,
    ensures
        tbl_keys_unique(t.push((k, v))),
        tbl_lookup(t.push((k, v)), k) == v,
        forall|u: Seq<char>|
            u != k ==> #[trigger] tbl_lookup(t.push((k, v)), u) == tbl_lookup(t, u),
{
    let t2 = t.push((k, v));
    assert(tbl_keys_unique(t2)) by {
        assert(forall|a: int| 0 <= a < t.len() ==> (#[trigger] t2[a]) == t[a]);
        assert(t2[t.len() as int].0 == k);
    }
    assert(t2[t.len() as int] == (k, v));
    lemma_tbl_lookup_found(t2, t.len() as int);
    assert forall|u: Seq<char>| u != k implies #[trigger] tbl_lookup(t2, u) == tbl_lookup(
        t,
        u,
    ) by {
        if exists|j: int| 0 <= j < t.len() && (#[trigger] t[j].0) == u {
            let j = choose|j: int| 0 <= j < t.len() && (#[trigger] t[j].0) == u;
            lemma_tbl_lookup_found(t, j);
            lemma_tbl_lookup_found(t2, j);
            assert(t2[j] == t[j]);
        } else {
            assert(forall|j: int| 0 <= j < t.len() ==> (#[trigger] t[j].0) != u);
            assert(forall|j: int| 0 <= j < t2.len() ==> (#[trigger] t2[j].0) != u) by {
                assert(forall|a: int| 0 <= a < t.len() ==> (#[trigger] t2[a]) == t[a]);
                assert(t2[t.len() as int].0 == k);
            }
            lemma_tbl_lookup_absent(t, u);
            lemma_tbl_lookup_absent(t2, u);
        }
    }
}

/// The first table entry whose key is `key`, if any.
fn find_key<V>(t: &Vec<(String, V)>, key: &str) -> (r: Option<usize>)
    ensures
        match r {
            Some(i) => i < t@.len() && t@[i as int].0@ == key@ && forall|j: int|
                0 <= j < i ==> (#[trigger] t@[j].0@) != key@,
            None => forall|j: int| 0 <= j < t@.len() ==> (#[trigger] t@[j].0@) != key@,
        },
{
    let mut i: usize = 0;
    while i < t.len()
        invariant
            i <= t@.len(),
            forall|j: int| 0 <= j < i ==> (#[trigger] t@[j].0@) != key@,
        decreases t@.len() - i,
    {
        if crate::strutil::str_equal(t[i].0.as_str(), key) {
            return Some(i);
        }
        i += 1;
    }
    None
}

/// Appends `idx` to the position list of `key`, creating the entry if absent.
fn tbl_add(t: &mut Vec<(String, Vec<usize>)>, key: &str, idx: usize)
    requires
        tbl_keys_unique(tbl_views(old(t)@)),
    ensures
        tbl_keys_unique(tbl_views(final(t)@)),
        tbl_lookup(tbl_views(final(t)@), key@) == tbl_lookup(tbl_views(old(t)@), key@) + seq![
            idx as int,
        ],
        forall|u: Seq<char>|
            u != key@ ==> #[trigger] tbl_lookup(tbl_views(final(t)@), u) == tbl_lookup(
                tbl_views(old(t)@),
                u,
            ),
{
    let ghost t0 = tbl_views(t@);
    match find_key(t, key) {
        Some(i) => {
            let (k, mut v) = t.remove(i);
            v.push(idx);
            let ghost v2 = Seq::new(v@.len(), |j: int| v@[j] as int);
            t.insert(i, (k, v));
            proof {
                assert(tbl_views(t@) =~= t0.update(i as int, (t0[i as int].0, v2)));
                assert(v2 =~= t0[i as int].1 + seq![idx as int]);
                lemma_tbl_lookup_update(t0, i as int, v2);
                lemma_tbl_lookup_found(t0, i as int);
            }
        },
        None => {
            let mut v: Vec<usize> = Vec::new();
            v.push(idx);
            let ghost v2 = Seq::new(v@.len(), |j: int| v@[j] as int);
            t.push((key.to_owned(), v));
            proof {
                assert(tbl_views(t@) =~= t0.push((key@, v2)));
                assert(v2 =~= Seq::<int>::empty() + seq![idx as int]);
                lemma_tbl_lookup_push(t0, key@, v2);
                lemma_tbl_lookup_absent(t0, key@);
            }
        },
    }
}

fn clone_string_vec(v: &Vec<String>) -> (r: Vec<String>)
    ensures
        r@ == v@,
{
    let mut r: Vec<String> = Vec::new();
    let mut i: usize = 0;
    while i < v.len()
        invariant
            i <= v@.len(),
            r@ == v@.subrange(0, i as int),
        decreases v@.len() - i,
    {
        r.push(v[i].clone());
        proof {
            assert(r@ =~= v@.subrange(0, (i + 1) as int));
        }
        i += 1;
    }
    proof {
        assert(v@.subrange(0, v@.len() as int) =~= v@);
    }
    r
}

impl Clone for MergeCommit {
    fn clone(&self) -> (r: Self)
        ensures
            r@ == self@,
    {
        MergeCommit {
            hash: self.hash.clone(),
            author: self.author.clone(),
            branch: self.branch.clone(),
            approved_by: clone_string_vec(&self.approved_by),
            pr: self.pr,
            rollup_by: match &self.rollup_by {
                Some(s) => Some(s.clone()),
                None => None,
            },
        }
    }
}

/// The analysis of one repository history: the ordered merge-record list and
/// the author/approver indices into it. Immutable once built.
#[derive(Debug)]
pub struct Repo {
    merges: Vec<MergeCommit>,
    approved_by_user: Vec<(String, Vec<usize>)>,
    authored_by_user: Vec<(String, Vec<usize>)>,
}

impl View for Repo {
    type V = Seq<MergeCommitView>;

    closed spec fn view(&self) -> Seq<MergeCommitView> {
        merge_views(self.merges@)
    }
}

impl Repo {
    /// The index tables list exactly the record positions of each author and
    /// approver, in record order.
    pub closed spec fn wf(&self) -> bool {
        &&& tbl_keys_unique(tbl_views(self.authored_by_user@))
        &&& tbl_keys_unique(tbl_views(self.approved_by_user@))
        &&& forall|u: Seq<char>|
            #[trigger] tbl_lookup(tbl_views(self.authored_by_user@), u) == author_positions(
                self@,
                u,
            )
        &&& forall|u: Seq<char>|
            #[trigger] tbl_lookup(tbl_views(self.approved_by_user@), u) == approver_positions(
                self@,
                u,
            )
    }

    /// The records at the positions the author index lists for `user`,
    /// in original discovery order; empty if the user is unknown.
    pub fn authored_by(&self, user: &str) -> (r: Vec<MergeCommit>)
        requires
            self.wf(),
        ensures
            merge_views(r@) == authored_records(self@, user@),
    {
        proof {
            lemma_author_positions_records(self@, user@);
        }
        let mut r: Vec<MergeCommit> = Vec::new();
        let i = match find_key(&self.authored_by_user, user) {
            Some(i) => i,
            None => {
                proof {
                    lemma_tbl_lookup_absent(tbl_views(self.authored_by_user@), user@);
                    assert(merge_views(r@) =~= authored_records(self@, user@));
                }
                return r;
            },
        };
        proof {
            lemma_tbl_lookup_found(tbl_views(self.authored_by_user@), i as int);
        }
        let positions = &self.authored_by_user[i].1;
        let ghost ps = author_positions(self@, user@);
        let mut j: usize = 0;
        while j < positions.len()
            invariant
                j <= positions@.len(),
                ps == author_positions(self@, user@),
                ps.len() == positions@.len(),
                forall|k: int| 0 <= k < ps.len() ==> #[trigger] ps[k] == positions@[k] as int,
                ps.len() == authored_records(self@, user@).len(),
                forall|k: int|
                    0 <= k < ps.len() ==> 0 <= #[trigger] ps[k] < self@.len() && self@[ps[k]]
                        == authored_records(self@, user@)[k],
                self@ == merge_views(self.merges@),
                merge_views(r@) == authored_records(self@, user@).subrange(0, j as int),
            decreases positions@.len() - j,
        {
            proof {
                assert(ps[j as int] == positions@[j as int] as int);
                assert(0 <= ps[j as int] < self@.len());
                assert(self@[ps[j as int]] == authored_records(self@, user@)[j as int]);
                assert(self@[ps[j as int]] == self.merges@[ps[j as int]]@);
            }
            let ghost prevr = r@;
            let rec = self.merges[positions[j]].clone();
            r.push(rec);
            proof {
                let recs = authored_records(self@, user@);
                assert(merge_views(prevr).len() == prevr.len());
                assert(prevr.len() == j as int);
                assert(r@ == prevr.push(rec));
                assert forall|k: int| 0 <= k < j + 1 implies merge_views(r@)[k] == recs.subrange(
                    0,
                    (j + 1) as int,
                )[k] by {
                    if k < j {
                        assert(r@[k] == prevr[k]);
                        assert(merge_views(prevr)[k] == recs.subrange(0, j as int)[k]);
                    } else {
                        assert(r@[k]@ == self.merges@[ps[j as int]]@);
                    }
                }
                assert(merge_views(r@) =~= recs.subrange(0, (j + 1) as int));
            }
            j += 1;
        }
        proof {
            assert(authored_records(self@, user@).subrange(
                0,
                authored_records(self@, user@).len() as int,
            ) =~= authored_records(self@, user@));
        }
        r
    }

    /// The records at the positions the approver index lists for `user`,
    /// in original discovery order; empty if the user is unknown.
    pub fn approved_by(&self, user: &str) -> (r: Vec<MergeCommit>)
        requires
            self.wf(),
        ensures
            merge_views(r@) == approved_records(self@, user@),
    {
        proof {
            lemma_approver_positions_records(self@, user@);
        }
        let mut r: Vec<MergeCommit> = Vec::new();
        let i = match find_key(&self.approved_by_user, user) {
            Some(i) => i,
            None => {
                proof {
                    lemma_tbl_lookup_absent(tbl_views(self.approved_by_user@), user@);
                    assert(merge_views(r@) =~= approved_records(self@, user@));
                }
                return r;
            },
        };
        proof {
            lemma_tbl_lookup_found(tbl_views(self.approved_by_user@), i as int);
        }
        let positions = &self.approved_by_user[i].1;
        let ghost ps = approver_positions(self@, user@);
        let mut j: usize = 0;
        while j < positions.len()
            invariant
                j <= positions@.len(),
                ps == approver_positions(self@, user@),
                ps.len() == positions@.len(),
                forall|k: int| 0 <= k < ps.len() ==> #[trigger] ps[k] == positions@[k] as int,
                ps.len() == approved_records(self@, user@).len(),
                forall|k: int|
                    0 <= k < ps.len() ==> 0 <= #[trigger] ps[k] < self@.len() && self@[ps[k]]
                        == approved_records(self@, user@)[k],
                self@ == merge_views(self.merges@),
                merge_views(r@) == approved_records(self@, user@).subrange(0, j as int),
            decreases positions@.len() - j,
        {
            proof {
                assert(ps[j as int] == positions@[j as int] as int);
                assert(0 <= ps[j as int] < self@.len());
                assert(self@[ps[j as int]] == approved_records(self@, user@)[j as int]);
                assert(self@[ps[j as int]] == self.merges@[ps[j as int]]@);
            }
            let ghost prevr = r@;
            let rec = self.merges[positions[j]].clone();
            r.push(rec);
            proof {
                let recs = approved_records(self@, user@);
                assert(merge_views(prevr).len() == prevr.len());
                assert(prevr.len() == j as int);
                assert(r@ == prevr.push(rec));
                assert forall|k: int| 0 <= k < j + 1 implies merge_views(r@)[k] == recs.subrange(
                    0,
                    (j + 1) as int,
                )[k] by {
                    if k < j {
                        assert(r@[k] == prevr[k]);
                        assert(merge_views(prevr)[k] == recs.subrange(0, j as int)[k]);
                    } else {
                        assert(r@[k]@ == self.merges@[ps[j as int]]@);
                    }
                }
                assert(merge_views(r@) =~= recs.subrange(0, (j + 1) as int));
            }
            j += 1;
        }
        proof {
            assert(approved_records(self@, user@).subrange(
                0,
                approved_records(self@, user@).len() as int,
            ) =~= approved_records(self@, user@));
        }
        r
    }
}

/// Analyzing the same immutable line sequence twice yields index-for-index
/// identical content: the analysis is a function of the lines alone.
pub proof fn lemma_analysis_deterministic(
    lines: Seq<Seq<char>>,
    a: Seq<MergeCommitView>,
    b: Seq<MergeCommitView>,
)
    requires
        a == spec_analyze(lines),
        b == spec_analyze(lines),
    ensures
        a.len() == b.len(),
        forall|k: int| 0 <= k < a.len() ==> a[k] == b[k],
{
}

/// The views of a grouping: each counterpart username with its record list.
pub open spec fn grouped_views(g: Seq<(String, Vec<MergeCommit>)>) -> Seq<
    (Seq<char>, Seq<MergeCommitView>),
> {
    Seq::new(g.len(), |i: int| (g[i].0@, merge_views(g[i].1@)))
}

/// Appends `v` to the record list of `k`, in insertion order: the first entry
/// keyed `k` grows by `v`; if none exists, a new entry is appended at the end.
pub open spec fn group_add(
    g: Seq<(Seq<char>, Seq<MergeCommitView>)>,
    k: Seq<char>,
    v: MergeCommitView,
) -> Seq<(Seq<char>, Seq<MergeCommitView>)>
    decreases g.len(),
{
    if g.len() == 0 {
        seq![(k, seq![v])]
    } else if g[0].0 == k {
        seq![(g[0].0, g[0].1.push(v))] + g.subrange(1, g.len() as int)
    } else {
        seq![g[0]] + group_add(g.subrange(1, g.len() as int), k, v)
    }
}

/// The grouping that results from adding a sequence of keyed records in order.
pub open spec fn group_pairs(ps: Seq<(Seq<char>, MergeCommitView)>) -> Seq<
    (Seq<char>, Seq<MergeCommitView>),
>
    decreases ps.len(),
{
    if ps.len() == 0 {
        Seq::empty()
    } else {
        group_add(group_pairs(ps.drop_last()), ps.last().0, ps.last().1)
    }
}

/// Each record of `rs` keyed by every one of its approvers, in order.
pub open spec fn approver_pairs(rs: Seq<MergeCommitView>) -> Seq<(Seq<char>, MergeCommitView)>
    decreases rs.len(),
{
    if rs.len() == 0 {
        Seq::empty()
    } else {
        approver_pairs(rs.drop_last()) + Seq::new(
            rs.last().approved_by.len(),
            |j: int| (rs.last().approved_by[j], rs.last()),
        )
    }
}

/// Each record of `rs` keyed by its author, in order.
pub open spec fn author_pairs(rs: Seq<MergeCommitView>) -> Seq<(Seq<char>, MergeCommitView)>
    decreases rs.len(),
{
    if rs.len() == 0 {
        Seq::empty()
    } else {
        author_pairs(rs.drop_last()) + seq![(rs.last().author, rs.last())]
    }
}

proof fn lemma_group_add_found(
    g: Seq<(Seq<char>, Seq<MergeCommitView>)>,
    i: int,
    k: Seq<char>,
    v: MergeCommitView,
)
    requires
        0 <= i < g.len(),
        g[i].0 == k,
        forall|j: int| 0 <= j < i ==> (#[trigger] g[j].0) != k,
    ensures
        group_add(g, k, v) == g.update(i, (g[i].0, g[i].1.push(v))),
    decreases i,
{
    if i == 0 {
        assert(group_add(g, k, v) =~= g.update(0, (g[0].0, g[0].1.push(v))));
    } else {
        let g1 = g.subrange(1, g.len() as int);
        assert(forall|j: int| 0 <= j < g1.len() ==> (#[trigger] g1[j]) == g[j + 1]);
        lemma_group_add_found(g1, i - 1, k, v);
        assert(g1[i - 1] == g[i]);
        assert(group_add(g, k, v) =~= g.update(i, (g[i].0, g[i].1.push(v))));
    }
}

proof fn lemma_group_add_none(
    g: Seq<(Seq<char>, Seq<MergeCommitView>)>,
    k: Seq<char>,
    v: MergeCommitView,
)
    requires
        forall|j: int| 0 <= j < g.len() ==> (#[trigger] g[j].0) != k,
    ensures
        group_add(g, k, v) == g.push((k, seq![v])),
    decreases g.len(),
{
    if g.len() == 0 {
        assert(group_add(g, k, v) =~= g.push((k, seq![v])));
    } else {
        let g1 = g.subrange(1, g.len() as int);
        assert(forall|j: int| 0 <= j < g1.len() ==> (#[trigger] g1[j]) == g[j + 1]);
        lemma_group_add_none(g1, k, v);
        assert(group_add(g, k, v) =~= g.push((k, seq![v])));
    }
}

/// Adds one keyed record to a grouping under construction.
fn group_add_exec(g: &mut Vec<(String, Vec<MergeCommit>)>, key: &str, rec: &MergeCommit)
    ensures
        grouped_views(final(g)@) == group_add(grouped_views(old(g)@), key@, rec@),
{
    let ghost g0 = grouped_views(g@);
    match find_key(g, key) {
        Some(i) => {
            let (k, mut v) = g.remove(i);
            v.push(rec.clone());
            let ghost vv = merge_views(v@);
            g.insert(i, (k, v));
            proof {
                assert(vv =~= g0[i as int].1.push(rec@));
                assert(grouped_views(g@) =~= g0.update(i as int, (g0[i as int].0, vv)));
                lemma_group_add_found(g0, i as int, key@, rec@);
            }
        },
        None => {
            let mut v: Vec<MergeCommit> = Vec::new();
            v.push(rec.clone());
            let ghost vv = merge_views(v@);
            g.push((key.to_owned(), v));
            proof {
                assert(vv =~= seq![rec@]);
                assert(grouped_views(g@) =~= g0.push((key@, vv)));
                lemma_group_add_none(g0, key@, rec@);
            }
        },
    }
}

impl Repo {
    /// For every record authored by `user`, fans out to each of its
    /// approvers: approver username, with the records of this author that
    /// they approved, grouped in first-encounter order.
    pub fn authored_by_grouped(&self, user: &str) -> (g: Vec<(String, Vec<MergeCommit>)>)
        requires
            self.wf(),
        ensures
            grouped_views(g@) == group_pairs(approver_pairs(authored_records(self@, user@))),
    {
        let records = self.authored_by(user);
        let ghost rv = merge_views(records@);
        let mut g: Vec<(String, Vec<MergeCommit>)> = Vec::new();
        let mut i: usize = 0;
        while i < records.len()
            invariant
                i <= records@.len(),
                rv == merge_views(records@),
                rv == authored_records(self@, user@),
                grouped_views(g@) == group_pairs(approver_pairs(rv.subrange(0, i as int))),
            decreases records@.len() - i,
        {
            let ghost pre = approver_pairs(rv.subrange(0, i as int));
            let ghost rec = rv[i as int];
            let ghost ab = rec.approved_by;
            proof {
                assert(rec == records@[i as int]@);
                assert(ab == seq_views(records@[i as int].approved_by@));
            }
            let mut k: usize = 0;
            while k < records[i].approved_by.len()
                invariant
                    i < records@.len(),
                    k <= records@[i as int].approved_by@.len(),
                    rec == records@[i as int]@,
                    ab == rec.approved_by,
                    ab == seq_views(records@[i as int].approved_by@),
                    grouped_views(g@) == group_pairs(
                        pre + Seq::new(k as nat, |j: int| (ab[j], rec)),
                    ),
                decreases records@[i as int].approved_by@.len() - k,
            {
                group_add_exec(&mut g, records[i].approved_by[k].as_str(), &records[i]);
                proof {
                    let p0 = pre + Seq::new(k as nat, |j: int| (ab[j], rec));
                    let p1 = pre + Seq::new((k + 1) as nat, |j: int| (ab[j], rec));
                    assert(p1.drop_last() =~= p0);
                    assert(p1.last() == (ab[k as int], rec));
                    assert(records@[i as int].approved_by@[k as int]@ == ab[k as int]);
                    assert(records@[i as int]@ == rec);
                }
                k += 1;
            }
            proof {
                let full = rv.subrange(0, (i + 1) as int);
                assert(full.drop_last() =~= rv.subrange(0, i as int));
                assert(full.last() == rec);
                assert(pre + Seq::new(ab.len(), |j: int| (ab[j], rec)) =~= approver_pairs(full));
            }
            i += 1;
        }
        proof {
            assert(rv.subrange(0, rv.len() as int) =~= rv);
        }
        g
    }

    /// For every record approved by `user`: author username, with the records
    /// of theirs that `user` approved, grouped in first-encounter order.
    pub fn approved_by_grouped(&self, user: &str) -> (g: Vec<(String, Vec<MergeCommit>)>)
        requires
            self.wf(),
        ensures
            grouped_views(g@) == group_pairs(author_pairs(approved_records(self@, user@))),
    {
        let records = self.approved_by(user);
        let ghost rv = merge_views(records@);
        let mut g: Vec<(String, Vec<MergeCommit>)> = Vec::new();
        let mut i: usize = 0;
        while i < records.len()
            invariant
                i <= records@.len(),
                rv == merge_views(records@),
                rv == approved_records(self@, user@),
                grouped_views(g@) == group_pairs(author_pairs(rv.subrange(0, i as int))),
            decreases records@.len() - i,
        {
            group_add_exec(&mut g, records[i].author.as_str(), &records[i]);
            proof {
                let full = rv.subrange(0, (i + 1) as int);
                assert(full.drop_last() =~= rv.subrange(0, i as int));
                assert(full.last() == records@[i as int]@);
                assert(author_pairs(full).drop_last() =~= author_pairs(rv.subrange(0, i as int)));
                assert(author_pairs(full).last() == (records@[i as int]@.author, records@[i as int]@));
                assert(records@[i as int].author@ == records@[i as int]@.author);
            }
            i += 1;
        }
        proof {
            assert(rv.subrange(0, rv.len() as int) =~= rv);
        }
        g
    }
}

impl Repo {
    /// The ranking of approvers over the records authored by `user`, rendered
    /// with marker `r`; nothing if `user` authored no record.
    pub fn print_authored_by(&self, user: &str) -> (r: Option<String>)
        requires
            self.wf(),
        ensures
            crate::render::opt_str_view(r) == crate::render::spec_print(
                crate::render::ranked_of(
                    group_pairs(approver_pairs(authored_records(self@, user@))),
                ),
                'r',
            ),
    {
        crate::render::print(self.authored_by_grouped(user), 'r')
    }

    /// The ranking of authors over the records approved by `user`, rendered
    /// with marker `a`; nothing if `user` approved no record.
    pub fn print_approved_by(&self, user: &str) -> (r: Option<String>)
        requires
            self.wf(),
        ensures
            crate::render::opt_str_view(r) == crate::render::spec_print(
                crate::render::ranked_of(
                    group_pairs(author_pairs(approved_records(self@, user@))),
                ),
                'a',
            ),
    {
        crate::render::print(self.approved_by_grouped(user), 'a')
    }

    /// The full record list, in discovery order.
    pub fn merges(&self) -> (r: &Vec<MergeCommit>)
        ensures
            merge_views(r@) == self@,
    {
        proof {
            assert(merge_views(self.merges@) =~= self@);
        }
        &self.merges
    }
}

impl Default for Repo {
    /// The analysis of an empty history.
    fn default() -> (r: Self)
        ensures
            r.wf(),
            r@ == Seq::<MergeCommitView>::empty(),
    {
        let r = Repo { merges: Vec::new(), approved_by_user: Vec::new(), authored_by_user: Vec::new() };
        proof {
            assert(r@ =~= Seq::<MergeCommitView>::empty());
            assert(tbl_views(r.authored_by_user@) =~= Seq::<(Seq<char>, Seq<int>)>::empty());
            assert(tbl_views(r.approved_by_user@) =~= Seq::<(Seq<char>, Seq<int>)>::empty());
            assert forall|u: Seq<char>| #[trigger] tbl_lookup(
                tbl_views(r.authored_by_user@),
                u,
            ) == author_positions(r@, u) by {
                assert(author_positions(r@, u) =~= Seq::<int>::empty());
            }
            assert forall|u: Seq<char>| #[trigger] tbl_lookup(
                tbl_views(r.approved_by_user@),
                u,
            ) == approver_positions(r@, u) by {
                assert(approver_positions(r@, u) =~= Seq::<int>::empty());
            }
        }
        r
    }
}

/// Analyzes an ordered line sequence: parses every line, keeps the bot-merge
/// records in line order, and builds the author and approver indices. A line
/// that fails to parse is skipped and never aborts the pass.
pub fn analyze_repo(lines: &Vec<String>) -> (r: Repo)
    ensures
        r.wf(),
        r@ == spec_analyze(seq_views(lines@)),
{
    let mut merges: Vec<MergeCommit> = Vec::new();
    let mut i: usize = 0;
    while i < lines.len()
        invariant
            i <= lines@.len(),
            merge_views(merges@) == spec_analyze(seq_views(lines@).subrange(0, i as int)),
        decreases lines@.len() - i,
    {
        let ghost pre = seq_views(lines@).subrange(0, i as int);
        match parse_merge_commit(lines[i].as_str()) {
            Ok(Some(m)) => {
                merges.push(m);
            },
            _ => {},
        }
        proof {
            let cur = seq_views(lines@).subrange(0, (i + 1) as int);
            assert(cur.drop_last() =~= pre);
            assert(cur.last() == lines@[i as int]@);
            assert(merge_views(merges@) =~= spec_analyze(cur));
        }
        i += 1;
    }
    proof {
        assert(seq_views(lines@).subrange(0, lines@.len() as int) =~= seq_views(lines@));
    }
    let ghost mv = merge_views(merges@);
    let mut authored: Vec<(String, Vec<usize>)> = Vec::new();
    let mut approved: Vec<(String, Vec<usize>)> = Vec::new();
    let mut idx: usize = 0;
    while idx < merges.len()
        invariant
            idx <= merges@.len(),
            mv == merge_views(merges@),
            tbl_keys_unique(tbl_views(authored@)),
            tbl_keys_unique(tbl_views(approved@)),
            forall|u: Seq<char>|
                #[trigger] tbl_lookup(tbl_views(authored@), u) == author_positions(
                    mv.subrange(0, idx as int),
                    u,
                ),
            forall|u: Seq<char>|
                #[trigger] tbl_lookup(tbl_views(approved@), u) == approver_positions(
                    mv.subrange(0, idx as int),
                    u,
                ),
        decreases merges@.len() - idx,
    {
        let ghost pre = mv.subrange(0, idx as int);
        let ghost cur = mv.subrange(0, (idx + 1) as int);
        proof {
            assert(cur.drop_last() =~= pre);
            assert(cur.last() == mv[idx as int]);
        }
        tbl_add(&mut authored, merges[idx].author.as_str(), idx);
        proof {
            let a = merges@[idx as int].author@;
            assert forall|u: Seq<char>| true implies #[trigger] tbl_lookup(
                tbl_views(authored@),
                u,
            ) == author_positions(cur, u) by {
                if u == a {
                    assert(author_positions(cur, u) =~= author_positions(pre, u) + seq![
                        idx as int,
                    ]);
                } else {
                    assert(author_positions(cur, u) =~= author_positions(pre, u));
                }
            }
        }
        let mut k: usize = 0;
        let ghost ab = mv[idx as int].approved_by;
        while k < merges[idx].approved_by.len()
            invariant
                idx < merges@.len(),
                k <= merges@[idx as int].approved_by@.len(),
                mv == merge_views(merges@),
                ab == mv[idx as int].approved_by,
                ab == seq_views(merges@[idx as int].approved_by@),
                pre == mv.subrange(0, idx as int),
                tbl_keys_unique(tbl_views(approved@)),
                forall|u: Seq<char>|
                    #[trigger] tbl_lookup(tbl_views(approved@), u) == approver_positions(pre, u)
                        + Seq::new(count_in(ab.subrange(0, k as int), u), |i: int| idx as int),
            decreases merges@[idx as int].approved_by@.len() - k,
        {
            tbl_add(&mut approved, merges[idx].approved_by[k].as_str(), idx);
            proof {
                let key = merges@[idx as int].approved_by@[k as int]@;
                let abk = ab.subrange(0, k as int);
                let abk1 = ab.subrange(0, (k + 1) as int);
                assert(abk1.drop_last() =~= abk);
                assert(abk1.last() == ab[k as int]);
                assert(ab[k as int] == key);
                assert forall|u: Seq<char>| true implies #[trigger] tbl_lookup(
                    tbl_views(approved@),
                    u,
                ) == approver_positions(pre, u) + Seq::new(
                    count_in(abk1, u),
                    |i: int| idx as int,
                ) by {
                    if u == key {
                        assert(count_in(abk1, u) == count_in(abk, u) + 1);
                        assert(approver_positions(pre, u) + Seq::new(
                            count_in(abk1, u),
                            |i: int| idx as int,
                        ) =~= (approver_positions(pre, u) + Seq::new(
                            count_in(abk, u),
                            |i: int| idx as int,
                        )) + seq![idx as int]);
                    } else {
                        assert(count_in(abk1, u) == count_in(abk, u));
                        assert(Seq::new(count_in(abk1, u), |i: int| idx as int) =~= Seq::new(
                            count_in(abk, u),
                            |i: int| idx as int,
                        ));
                    }
                }
            }
            k += 1;
        }
        proof {
            assert(ab.subrange(0, ab.len() as int) =~= ab);
            assert forall|u: Seq<char>| true implies #[trigger] tbl_lookup(
                tbl_views(approved@),
                u,
            ) == approver_positions(cur, u) by {
                assert(tbl_lookup(tbl_views(approved@), u) == approver_positions(pre, u)
                    + Seq::new(count_in(ab, u), |i: int| idx as int));
                assert(approver_positions(cur, u) =~= approver_positions(pre, u) + Seq::new(
                    count_in(ab, u),
                    |i: int| idx as int,
                ));
            }
        }
        idx += 1;
    }
    proof {
        assert(mv.subrange(0, mv.len() as int) =~= mv);
    }
    Repo { merges, approved_by_user: approved, authored_by_user: authored }
}

} // verus!
