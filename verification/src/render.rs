//! Rendering of a grouped result as a human-readable ranking: one line per
//! counterpart, sorted by descending record count; counterparts with equal
//! counts are ordered by username ascending (lexicographically by code point)
//! to make the output reproducible.

use vstd::prelude::*;

use crate::parse::{MergeCommit, MergeCommitView};
use crate::repo::grouped_views;
use crate::strutil::{dec_digits, lex_lt, push_char, str_lex_lt, u64_to_dec};

verus! {

/// `a` is ranked strictly before `b`: more records, or equally many and a
/// lexicographically smaller username.
pub open spec fn pair_before(a: (Seq<char>, nat), b: (Seq<char>, nat)) -> bool {
    a.1 > b.1 || (a.1 == b.1 && lex_lt(a.0, b.0))
}

/// Inserts `x` in front of the first entry it is ranked before.
pub open spec fn insert_ranked(x: (Seq<char>, nat), s: Seq<(Seq<char>, nat)>) -> Seq<
    (Seq<char>, nat),
>
    decreases s.len(),
{
    if s.len() == 0 {
        seq![x]
    } else if pair_before(x, s[0]) {
        seq![x] + s
    } else {
        seq![s[0]] + insert_ranked(x, s.subrange(1, s.len() as int))
    }
}

/// Insertion sort by rank.
pub open spec fn sort_ranked(s: Seq<(Seq<char>, nat)>) -> Seq<(Seq<char>, nat)>
    decreases s.len(),
{
    if s.len() == 0 {
        Seq::empty()
    } else {
        insert_ranked(s.last(), sort_ranked(s.drop_last()))
    }
}

/// Counts never increase along the sequence.
pub open spec fn count_sorted(s: Seq<(Seq<char>, nat)>) -> bool {
    forall|i: int, j: int| 0 <= i < j < s.len() ==> (#[trigger] s[i]).1 >= (#[trigger] s[j]).1
}

proof fn lemma_insert_ranked_props(x: (Seq<char>, nat), s: Seq<(Seq<char>, nat)>)
    requires
        count_sorted(s),
    ensures
        insert_ranked(x, s).len() == s.len() + 1,
        count_sorted(insert_ranked(x, s)),
        forall|k: int|
            0 <= k < insert_ranked(x, s).len() ==> (#[trigger] insert_ranked(x, s)[k]) == x || (
            exists|m: int| 0 <= m < s.len() && insert_ranked(x, s)[k] == s[m]),
    decreases s.len(),
{
    let r = insert_ranked(x, s);
    if s.len() == 0 {
    } else if pair_before(x, s[0]) {
        assert(x.1 >= s[0].1);
        assert forall|i: int, j: int| 0 <= i < j < r.len() implies (#[trigger] r[i]).1
            >= (#[trigger] r[j]).1 by {
            if i > 0 {
                assert(r[i] == s[i - 1] && r[j] == s[j - 1]);
            } else {
                assert(r[j] == s[j - 1]);
                if j > 1 {
                    assert(s[0].1 >= s[j - 1].1);
                }
            }
        }
        assert forall|k: int| 0 <= k < r.len() implies (#[trigger] r[k]) == x || (exists|m: int|
            0 <= m < s.len() && r[k] == s[m]) by {
            if k > 0 {
                assert(r[k] == s[k - 1]);
            }
        }
    } else {
        assert(x.1 <= s[0].1);
        let s1 = s.subrange(1, s.len() as int);
        assert(count_sorted(s1)) by {
            assert(forall|a: int| 0 <= a < s1.len() ==> (#[trigger] s1[a]) == s[a + 1]);
        }
        lemma_insert_ranked_props(x, s1);
        let r1 = insert_ranked(x, s1);
        assert(forall|a: int| 0 <= a < r1.len() ==> (#[trigger] r[a + 1]) == r1[a]);
        assert forall|i: int, j: int| 0 <= i < j < r.len() implies (#[trigger] r[i]).1
            >= (#[trigger] r[j]).1 by {
            if i > 0 {
                assert(r[i] == r1[i - 1] && r[j] == r1[j - 1]);
            } else {
                assert(r[0] == s[0]);
                assert(r[j] == r1[j - 1]);
                if r1[j - 1] == x {
                } else {
                    let m = choose|m: int| 0 <= m < s1.len() && r1[j - 1] == s1[m];
                    assert(s1[m] == s[m + 1]);
                    assert(s[0].1 >= s[m + 1].1);
                }
            }
        }
        assert forall|k: int| 0 <= k < r.len() implies (#[trigger] r[k]) == x || (exists|m: int|
            0 <= m < s.len() && r[k] == s[m]) by {
            if k == 0 {
                assert(r[0] == s[0]);
            } else {
                assert(r[k] == r1[k - 1]);
                if r1[k - 1] != x {
                    let m = choose|m: int| 0 <= m < s1.len() && r1[k - 1] == s1[m];
                    assert(s1[m] == s[m + 1]);
                }
            }
        }
    }
}

proof fn lemma_sort_ranked_props(s: Seq<(Seq<char>, nat)>)
    ensures
        sort_ranked(s).len() == s.len(),
        count_sorted(sort_ranked(s)),
    decreases s.len(),
{
    if s.len() > 0 {
        lemma_sort_ranked_props(s.drop_last());
        lemma_insert_ranked_props(s.last(), sort_ranked(s.drop_last()));
    }
}

proof fn lemma_insert_ranked_at(s: Seq<(Seq<char>, nat)>, x: (Seq<char>, nat), p: int)
    requires
        0 <= p <= s.len(),
        forall|q: int| 0 <= q < p ==> !pair_before(x, #[trigger] s[q]),
        p < s.len() ==> pair_before(x, s[p]),
    ensures
        insert_ranked(x, s) == s.subrange(0, p) + seq![x] + s.subrange(p, s.len() as int),
    decreases p,
{
    if s.len() == 0 {
        assert(insert_ranked(x, s) =~= s.subrange(0, p) + seq![x] + s.subrange(p, s.len() as int));
    } else if pair_before(x, s[0]) {
        assert(p == 0);
        assert(insert_ranked(x, s) =~= s.subrange(0, p) + seq![x] + s.subrange(p, s.len() as int));
    } else {
        assert(p > 0);
        let s1 = s.subrange(1, s.len() as int);
        assert(forall|a: int| 0 <= a < s1.len() ==> (#[trigger] s1[a]) == s[a + 1]);
        lemma_insert_ranked_at(s1, x, p - 1);
        assert(insert_ranked(x, s) =~= s.subrange(0, p) + seq![x] + s.subrange(p, s.len() as int));
    }
}

proof fn lemma_dec_len_monotone(a: nat, b: nat)
    requires
        a <= b,
    ensures
        dec_digits(a).len() <= dec_digits(b).len(),
    decreases b,
{
    if b < 10 {
    } else if a < 10 {
        assert(dec_digits(b).len() >= 1);
    } else {
        vstd::arithmetic::div_mod::lemma_div_is_ordered(a as int, b as int, 10);
        lemma_dec_len_monotone(a / 10, b / 10);
    }
}

/// `n` spaces.
pub open spec fn spaces(n: nat) -> Seq<char> {
    Seq::new(n, |i: int| ' ')
}

/// One ranking line: the count right-aligned to `width`, a space, the mode
/// marker, an equals sign, the username, and a line break.
pub open spec fn render_line(name: Seq<char>, count: nat, width: nat, mode: char) -> Seq<char> {
    let ds = dec_digits(count);
    let pad = if ds.len() <= width {
        (width - ds.len()) as nat
    } else {
        0
    };
    spaces(pad) + ds + seq![' '] + seq![mode] + seq!['='] + name + seq!['\n']
}

/// The ranking lines for `s`, in order.
pub open spec fn render_lines(s: Seq<(Seq<char>, nat)>, width: nat, mode: char) -> Seq<char>
    decreases s.len(),
{
    if s.len() == 0 {
        Seq::empty()
    } else {
        render_lines(s.drop_last(), width, mode) + render_line(
            s.last().0,
            s.last().1,
            width,
            mode,
        )
    }
}

/// The report for a grouping: nothing when it is empty, else the rank-sorted
/// lines with every count padded to the width of the largest count.
pub open spec fn spec_print(g: Seq<(Seq<char>, nat)>, mode: char) -> Option<Seq<char>> {
    if g.len() == 0 {
        None
    } else {
        let sorted = sort_ranked(g);
        Some(render_lines(sorted, dec_digits(sorted[0].1).len(), mode))
    }
}

/// Each grouping entry reduced to its username and record count.
pub open spec fn ranked_of(g: Seq<(Seq<char>, Seq<MergeCommitView>)>) -> Seq<(Seq<char>, nat)> {
    Seq::new(g.len(), |i: int| (g[i].0, g[i].1.len()))
}

/// The views of the exec ranking entries.
pub open spec fn ranked_pairs(v: Seq<(String, usize)>) -> Seq<(Seq<char>, nat)> {
    Seq::new(v.len(), |i: int| (v[i].0@, v[i].1 as nat))
}

/// The view of an optional report.
pub open spec fn opt_str_view(r: Option<String>) -> Option<Seq<char>> {
    match r {
        Some(s) => Some(s@),
        None => None,
    }
}

fn pair_before_exec(ac: usize, an: &str, bc: usize, bn: &str) -> (r: bool)
    ensures
        r == pair_before((an@, ac as nat), (bn@, bc as nat)),
{
    ac > bc || (ac == bc && str_lex_lt(an, bn))
}

fn insert_ranked_exec(s: &mut Vec<(String, usize)>, name: String, count: usize)
    ensures
        ranked_pairs(final(s)@) == insert_ranked((name@, count as nat), ranked_pairs(old(s)@)),
{
    let ghost s0 = ranked_pairs(s@);
    let ghost x = (name@, count as nat);
    let mut p: usize = 0;
    while p < s.len()
        invariant
            p <= s@.len(),
            s0 == ranked_pairs(s@),
            s0 == ranked_pairs(old(s)@),
            s@ == old(s)@,
            forall|q: int| 0 <= q < p ==> !pair_before(x, #[trigger] s0[q]),
            x == (name@, count as nat),
        decreases s@.len() - p,
    {
        if pair_before_exec(count, name.as_str(), s[p].1, s[p].0.as_str()) {
            proof {
                assert(s0[p as int] == (s@[p as int].0@, s@[p as int].1 as nat));
                lemma_insert_ranked_at(s0, x, p as int);
            }
            s.insert(p, (name, count));
            proof {
                assert(ranked_pairs(s@) =~= s0.subrange(0, p as int) + seq![x] + s0.subrange(
                    p as int,
                    s0.len() as int,
                ));
            }
            return ;
        }
        proof {
            assert(s0[p as int] == (s@[p as int].0@, s@[p as int].1 as nat));
        }
        p += 1;
    }
    proof {
        lemma_insert_ranked_at(s0, x, s0.len() as int);
    }
    s.push((name, count));
    proof {
        assert(ranked_pairs(s@) =~= s0.subrange(0, s0.len() as int) + seq![x] + s0.subrange(
            s0.len() as int,
            s0.len() as int,
        ));
    }
}

/// Renders a grouping as a ranking report: one line per counterpart, most
/// records first, ties by username ascending; nothing for an empty grouping.
pub fn print(grouped: Vec<(String, Vec<MergeCommit>)>, mode: char) -> (r: Option<String>)
    ensures
        opt_str_view(r) == spec_print(ranked_of(grouped_views(grouped@)), mode),
{
    let ghost g0 = ranked_of(grouped_views(grouped@));
    if grouped.len() == 0 {
        return None;
    }
    let mut sorted: Vec<(String, usize)> = Vec::new();
    let mut i: usize = 0;
    while i < grouped.len()
        invariant
            i <= grouped@.len(),
            g0 == ranked_of(grouped_views(grouped@)),
            ranked_pairs(sorted@) == sort_ranked(g0.subrange(0, i as int)),
        decreases grouped@.len() - i,
    {
        insert_ranked_exec(&mut sorted, grouped[i].0.clone(), grouped[i].1.len());
        proof {
            let cur = g0.subrange(0, (i + 1) as int);
            assert(cur.drop_last() =~= g0.subrange(0, i as int));
            assert(cur.last() == (grouped@[i as int].0@, grouped@[i as int].1@.len() as nat));
        }
        i += 1;
    }
    proof {
        assert(g0.subrange(0, g0.len() as int) =~= g0);
        lemma_sort_ranked_props(g0);
    }
    let ghost sv = sort_ranked(g0);
    let width_str = u64_to_dec(sorted[0].1 as u64);
    let width = width_str.unicode_len();
    proof {
        assert(sv[0] == (sorted@[0].0@, sorted@[0].1 as nat));
        assert(width as nat == dec_digits(sv[0].1).len());
    }
    let mut res = String::new();
    let mut k: usize = 0;
    while k < sorted.len()
        invariant
            k <= sorted@.len(),
            sv == sort_ranked(g0),
            sv.len() > 0,
            count_sorted(sv),
            ranked_pairs(sorted@) == sv,
            sorted@.len() == sv.len(),
            width as nat == dec_digits(sv[0].1).len(),
            res@ == render_lines(sv.subrange(0, k as int), width as nat, mode),
        decreases sorted@.len() - k,
    {
        proof {
            assert(sv[k as int] == (sorted@[k as int].0@, sorted@[k as int].1 as nat));
            if k > 0 {
                assert(sv[0].1 >= sv[k as int].1);
            }
            lemma_dec_len_monotone(sorted@[k as int].1 as nat, sv[0].1);
        }
        let count = sorted[k].1;
        let ds = u64_to_dec(count as u64);
        let dlen = ds.unicode_len();
        let ghost line_start = res@;
        let mut p = dlen;
        while p < width
            invariant
                dlen <= p <= width || (p == dlen && dlen >= width),
                dlen as nat == dec_digits(count as nat).len(),
                res@ == line_start + spaces((p - dlen) as nat),
            decreases width - p,
        {
            push_char(&mut res, ' ');
            proof {
                assert(line_start + spaces((p + 1 - dlen) as nat) =~= (line_start + spaces(
                    (p - dlen) as nat,
                )).push(' '));
            }
            p += 1;
        }
        res.append(ds.as_str());
        push_char(&mut res, ' ');
        push_char(&mut res, mode);
        push_char(&mut res, '=');
        res.append(sorted[k].0.as_str());
        push_char(&mut res, '\n');
        proof {
            let cur = sv.subrange(0, (k + 1) as int);
            assert(cur.drop_last() =~= sv.subrange(0, k as int));
            assert(cur.last() == sv[k as int]);
            assert(res@ =~= render_lines(cur, width as nat, mode));
        }
        k += 1;
    }
    proof {
        assert(sv.subrange(0, sv.len() as int) =~= sv);
    }
    Some(res)
}

} // verus!
