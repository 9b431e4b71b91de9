//! Character-level string utilities: equality, prefix stripping, splitting on
//! a delimiter, and decimal digits, each with an exact mathematical model.

use vstd::prelude::*;

verus! {

/// `p` is a prefix of `s`.
pub open spec fn is_prefix(p: Seq<char>, s: Seq<char>) -> bool {
    p.len() <= s.len() && s.subrange(0, p.len() as int) == p
}

/// Splitting `s` on the non-empty delimiter `d`, leftmost match first,
/// exactly as `str::split` does: the result always has at least one piece,
/// and matches of `d` do not overlap.
pub open spec fn spec_split(s: Seq<char>, d: Seq<char>) -> Seq<Seq<char>>
    decreases s.len(),
{
    if d.len() == 0 || s.len() < d.len() {
        seq![s]
    } else if s.subrange(0, d.len() as int) == d {
        seq![Seq::<char>::empty()] + spec_split(s.subrange(d.len() as int, s.len() as int), d)
    } else {
        let rest = spec_split(s.subrange(1, s.len() as int), d);
        seq![seq![s[0]] + rest[0]] + rest.subrange(1, rest.len() as int)
    }
}

/// A split always has at least one piece.
pub proof fn lemma_split_len(s: Seq<char>, d: Seq<char>)
    ensures
        spec_split(s, d).len() >= 1,
    decreases s.len(),
{
    if d.len() == 0 || s.len() < d.len() {
    } else if s.subrange(0, d.len() as int) == d {
    } else {
        lemma_split_len(s.subrange(1, s.len() as int), d);
    }
}

/// If the leftmost match of `d` in `s` is at `i`, the split is the piece
/// before `i` followed by the split of what comes after the match.
pub proof fn lemma_split_match_at(s: Seq<char>, d: Seq<char>, i: int)
    requires
        0 < d.len(),
        0 <= i,
        i + d.len() <= s.len(),
        s.subrange(i, i + d.len() as int) == d,
        forall|j: int| 0 <= j < i ==> #[trigger] s.subrange(j, j + d.len() as int) != d,
    ensures
        spec_split(s, d) == seq![s.subrange(0, i)] + spec_split(
            s.subrange(i + d.len() as int, s.len() as int),
            d,
        ),
    decreases i,
{
    if i == 0 {
        assert(s.subrange(0, 0) =~= Seq::<char>::empty());
        assert(spec_split(s, d) =~= seq![s.subrange(0, i)] + spec_split(
            s.subrange(i + d.len() as int, s.len() as int),
            d,
        ));
    } else {
        assert(s.subrange(0, 0 + d.len() as int) != d);
        assert(s.subrange(0, d.len() as int) == s.subrange(0, 0 + d.len() as int));
        let s1 = s.subrange(1, s.len() as int);
        let rest = spec_split(s1, d);
        assert(s1.subrange(i - 1, i - 1 + d.len() as int) =~= s.subrange(i, i + d.len() as int));
        assert forall|j: int| 0 <= j < i - 1 implies #[trigger] s1.subrange(j, j + d.len() as int)
            != d by {
            assert(s1.subrange(j, j + d.len() as int) =~= s.subrange(j + 1, j + 1 + d.len() as int));
        }
        lemma_split_match_at(s1, d, i - 1);
        let tail = spec_split(s1.subrange(i - 1 + d.len() as int, s1.len() as int), d);
        assert(rest == seq![s1.subrange(0, i - 1)] + tail);
        assert(rest[0] == s1.subrange(0, i - 1));
        assert(seq![s[0]] + rest[0] =~= s.subrange(0, i));
        assert(rest.subrange(1, rest.len() as int) =~= tail);
        assert(s1.subrange(i - 1 + d.len() as int, s1.len() as int) =~= s.subrange(
            i + d.len() as int,
            s.len() as int,
        ));
        assert(spec_split(s, d) =~= seq![s.subrange(0, i)] + spec_split(
            s.subrange(i + d.len() as int, s.len() as int),
            d,
        ));
    }
}

/// If `d` matches nowhere in `s`, the split is `s` itself as a single piece.
pub proof fn lemma_split_no_match(s: Seq<char>, d: Seq<char>)
    requires
        0 < d.len(),
        forall|j: int|
            0 <= j && j + d.len() <= s.len() ==> #[trigger] s.subrange(j, j + d.len() as int) != d,
    ensures
        spec_split(s, d) == seq![s],
    decreases s.len(),
{
    if s.len() < d.len() {
    } else {
        assert(s.subrange(0, 0 + d.len() as int) != d);
        assert(s.subrange(0, d.len() as int) == s.subrange(0, 0 + d.len() as int));
        let s1 = s.subrange(1, s.len() as int);
        assert forall|j: int| 0 <= j && j + d.len() <= s1.len() implies #[trigger] s1.subrange(
            j,
            j + d.len() as int,
        ) != d by {
            assert(s1.subrange(j, j + d.len() as int) =~= s.subrange(j + 1, j + 1 + d.len() as int));
        }
        lemma_split_no_match(s1, d);
        let rest = spec_split(s1, d);
        assert(rest == seq![s1]);
        assert(seq![s[0]] + rest[0] =~= s);
        assert(rest.subrange(1, rest.len() as int) =~= Seq::<Seq<char>>::empty());
        assert(spec_split(s, d) =~= seq![s]);
    }
}

/// The sequence of views of a vector of strings.
pub open spec fn seq_views(v: Seq<String>) -> Seq<Seq<char>> {
    Seq::new(v.len(), |i: int| v[i]@)
}

/// `c` is a decimal digit.
pub open spec fn is_digit(c: char) -> bool {
    48 <= c as int <= 57
}

/// Numeric value of a decimal digit.
pub open spec fn digit_of(c: char) -> int {
    c as int - 48
}

/// Every character of `s` is a decimal digit.
pub open spec fn all_digits(s: Seq<char>) -> bool {
    forall|i: int| 0 <= i < s.len() ==> is_digit(#[trigger] s[i])
}

/// The number denoted by a sequence of decimal digits (most significant first).
pub open spec fn digits_val(s: Seq<char>) -> nat
    decreases s.len(),
{
    if s.len() == 0 {
        0
    } else {
        (digits_val(s.drop_last()) * 10 + digit_of(s.last())) as nat
    }
}

/// The digit character for a value below ten.
pub open spec fn digit_char(d: int) -> char {
    if d == 0 {
        '0'
    } else if d == 1 {
        '1'
    } else if d == 2 {
        '2'
    } else if d == 3 {
        '3'
    } else if d == 4 {
        '4'
    } else if d == 5 {
        '5'
    } else if d == 6 {
        '6'
    } else if d == 7 {
        '7'
    } else if d == 8 {
        '8'
    } else {
        '9'
    }
}

/// The decimal notation of `n`, without leading zeroes (except for zero itself).
pub open spec fn dec_digits(n: nat) -> Seq<char>
    decreases n,
{
    if n < 10 {
        seq![digit_char(n as int)]
    } else {
        dec_digits(n / 10).push(digit_char((n % 10) as int))
    }
}

/// `s` with every trailing comma removed.
pub open spec fn spec_trim_trailing_commas(s: Seq<char>) -> Seq<char>
    decreases s.len(),
{
    if s.len() > 0 && s.last() == ',' {
        spec_trim_trailing_commas(s.drop_last())
    } else {
        s
    }
}

/// `s` split at the first colon: the part before it and the part after it.
pub open spec fn spec_split_once_colon(s: Seq<char>) -> Option<(Seq<char>, Seq<char>)>
    decreases s.len(),
{
    if s.len() == 0 {
        None
    } else if s[0] == ':' {
        Some((Seq::<char>::empty(), s.subrange(1, s.len() as int)))
    } else {
        match spec_split_once_colon(s.subrange(1, s.len() as int)) {
            None => None,
            Some((a, b)) => Some((seq![s[0]] + a, b)),
        }
    }
}

/// Strict lexicographic order on character sequences, by code point.
pub open spec fn lex_lt(a: Seq<char>, b: Seq<char>) -> bool
    decreases a.len(),
{
    if b.len() == 0 {
        false
    } else if a.len() == 0 {
        true
    } else if (a[0] as int) < (b[0] as int) {
        true
    } else if (a[0] as int) > (b[0] as int) {
        false
    } else {
        lex_lt(a.subrange(1, a.len() as int), b.subrange(1, b.len() as int))
    }
}

/// How often the character `c` occurs in `s`.
pub open spec fn count_char(s: Seq<char>, c: char) -> nat
    decreases s.len(),
{
    if s.len() == 0 {
        0
    } else {
        count_char(s.drop_last(), c) + if s.last() == c {
            1nat
        } else {
            0
        }
    }
}

pub proof fn lemma_count_concat(a: Seq<char>, b: Seq<char>, c: char)
    ensures
        count_char(a + b, c) == count_char(a, c) + count_char(b, c),
    decreases b.len(),
{
    if b.len() == 0 {
        assert(a + b =~= a);
    } else {
        assert((a + b).drop_last() =~= a + b.drop_last());
        assert((a + b).last() == b.last());
        lemma_count_concat(a, b.drop_last(), c);
    }
}

pub proof fn lemma_count_zero(s: Seq<char>, c: char)
    requires
        forall|i: int| 0 <= i < s.len() ==> s[i] != c,
    ensures
        count_char(s, c) == 0,
    decreases s.len(),
{
    if s.len() > 0 {
        lemma_count_zero(s.drop_last(), c);
    }
}

pub proof fn lemma_count_zero_char(s: Seq<char>, c: char)
    requires
        count_char(s, c) == 0,
    ensures
        forall|i: int| 0 <= i < s.len() ==> s[i] != c,
    decreases s.len(),
{
    if s.len() > 0 {
        lemma_count_zero_char(s.drop_last(), c);
        assert forall|i: int| 0 <= i < s.len() implies s[i] != c by {
            if i < s.len() - 1 {
                assert(s.drop_last()[i] == s[i]);
            }
        }
    }
}

pub proof fn lemma_count_at_most_one(s: Seq<char>, c: char, i: int, k: int)
    requires
        count_char(s, c) <= 1,
        0 <= i < s.len(),
        0 <= k < s.len(),
        s[i] == c,
        s[k] == c,
    ensures
        i == k,
    decreases s.len(),
{
    if s.last() == c {
        lemma_count_zero_char(s.drop_last(), c);
        assert(i == s.len() - 1 && k == s.len() - 1) by {
            if i < s.len() - 1 {
                assert(s.drop_last()[i] == s[i]);
            }
            if k < s.len() - 1 {
                assert(s.drop_last()[k] == s[k]);
            }
        }
    } else {
        assert(i < s.len() - 1 && k < s.len() - 1);
        assert(s.drop_last()[i] == s[i] && s.drop_last()[k] == s[k]);
        lemma_count_at_most_one(s.drop_last(), c, i, k);
    }
}

/// The tokens joined with the single character `sep` between them.
pub open spec fn join1(toks: Seq<Seq<char>>, sep: char) -> Seq<char>
    decreases toks.len(),
{
    if toks.len() == 0 {
        Seq::empty()
    } else if toks.len() == 1 {
        toks[0]
    } else {
        toks[0] + seq![sep] + join1(toks.subrange(1, toks.len() as int), sep)
    }
}

/// The total occurrences of `c` over a token list.
pub open spec fn tokens_count(toks: Seq<Seq<char>>, c: char) -> nat
    decreases toks.len(),
{
    if toks.len() == 0 {
        0
    } else {
        count_char(toks[0], c) + tokens_count(toks.subrange(1, toks.len() as int), c)
    }
}

pub proof fn lemma_count_single(c0: char, ch: char)
    ensures
        count_char(seq![c0], ch) == if c0 == ch {
            1nat
        } else {
            0nat
        },
{
    assert(seq![c0].last() == c0);
    assert(seq![c0].drop_last() =~= Seq::<char>::empty());
    assert(count_char(Seq::<char>::empty(), ch) == 0);
}

pub proof fn lemma_tokens_count_zero(toks: Seq<Seq<char>>, c: char)
    requires
        forall|t: int| 0 <= t < toks.len() ==> count_char(#[trigger] toks[t], c) == 0,
    ensures
        tokens_count(toks, c) == 0,
    decreases toks.len(),
{
    if toks.len() > 0 {
        let rest = toks.subrange(1, toks.len() as int);
        assert(forall|t: int| 0 <= t < rest.len() ==> (#[trigger] rest[t]) == toks[t + 1]);
        lemma_tokens_count_zero(rest, c);
    }
}

pub proof fn lemma_tokens_count4(a: Seq<char>, b: Seq<char>, c2: Seq<char>, d: Seq<char>, ch: char)
    ensures
        tokens_count(seq![a, b, c2, d], ch) == count_char(a, ch) + count_char(b, ch) + count_char(
            c2,
            ch,
        ) + count_char(d, ch),
{
    let t = seq![a, b, c2, d];
    assert(t.subrange(1, 4) =~= seq![b, c2, d]);
    assert(seq![b, c2, d].subrange(1, 3) =~= seq![c2, d]);
    assert(seq![c2, d].subrange(1, 2) =~= seq![d]);
    assert(seq![d].subrange(1, 1) =~= Seq::<Seq<char>>::empty());
    assert(tokens_count(Seq::<Seq<char>>::empty(), ch) == 0);
    assert(tokens_count(seq![d], ch) == count_char(d, ch));
    assert(tokens_count(seq![c2, d], ch) == count_char(c2, ch) + count_char(d, ch));
    assert(tokens_count(seq![b, c2, d], ch) == count_char(b, ch) + count_char(c2, ch) + count_char(
        d,
        ch,
    ));
}

pub proof fn lemma_join1_count(toks: Seq<Seq<char>>, sep: char, c: char)
    requires
        c != sep,
    ensures
        count_char(join1(toks, sep), c) == tokens_count(toks, c),
    decreases toks.len(),
{
    if toks.len() == 0 {
    } else if toks.len() == 1 {
        assert(tokens_count(toks.subrange(1, 1), c) == 0);
    } else {
        let rest = toks.subrange(1, toks.len() as int);
        lemma_join1_count(rest, sep, c);
        lemma_count_concat(toks[0] + seq![sep], join1(rest, sep), c);
        lemma_count_concat(toks[0], seq![sep], c);
        assert(count_char(seq![sep], c) == 0) by {
            assert(seq![sep].last() == sep);
            assert(seq![sep].drop_last() =~= Seq::<char>::empty());
            assert(count_char(Seq::<char>::empty(), c) == 0);
        }
    }
}

pub proof fn lemma_join1_last(toks: Seq<Seq<char>>, sep: char)
    requires
        toks.len() >= 1,
        toks.last().len() > 0,
    ensures
        join1(toks, sep).len() > 0,
        join1(toks, sep).last() == toks.last().last(),
    decreases toks.len(),
{
    if toks.len() == 1 {
    } else {
        let rest = toks.subrange(1, toks.len() as int);
        assert(rest.last() == toks.last());
        lemma_join1_last(rest, sep);
        assert((toks[0] + seq![sep] + join1(rest, sep)).last() == join1(rest, sep).last());
    }
}

/// Splitting on a single character inverts joining with it, provided no token
/// contains the character.
pub proof fn lemma_split_join1(toks: Seq<Seq<char>>, sep: char)
    requires
        toks.len() >= 1,
        forall|t: int, i: int|
            0 <= t < toks.len() && 0 <= i < toks[t].len() ==> (#[trigger] toks[t][i]) != sep,
    ensures
        spec_split(join1(toks, sep), seq![sep]) == toks,
    decreases toks.len(),
{
    let s = join1(toks, sep);
    let d = seq![sep];
    if toks.len() == 1 {
        assert(s == toks[0]);
        assert forall|j: int| 0 <= j && j + 1 <= s.len() implies #[trigger] s.subrange(j, j + 1)
            != d by {
            assert(s.subrange(j, j + 1)[0] == toks[0][j]);
        }
        lemma_split_no_match(s, d);
        assert(spec_split(s, d) =~= toks);
    } else {
        let rest = toks.subrange(1, toks.len() as int);
        assert(forall|t: int, i: int|
            0 <= t < rest.len() && 0 <= i < rest[t].len() ==> (#[trigger] rest[t][i]) != sep)
            by {
            assert(forall|t: int| 0 <= t < rest.len() ==> rest[t] == toks[t + 1]);
        }
        lemma_split_join1(rest, sep);
        let t0 = toks[0];
        let tail = join1(rest, sep);
        assert(s == t0 + d + tail);
        assert forall|j: int| 0 <= j < t0.len() implies #[trigger] s.subrange(j, j + 1) != d by {
            assert(s.subrange(j, j + 1)[0] == s[j]);
            assert(s[j] == t0[j]);
        }
        assert(s.subrange(t0.len() as int, t0.len() as int + 1) =~= d);
        lemma_split_match_at(s, d, t0.len() as int);
        assert(s.subrange(t0.len() as int + 1, s.len() as int) =~= tail);
        assert(s.subrange(0, t0.len() as int) =~= t0);
        assert(spec_split(s, d) =~= toks);
    }
}

pub proof fn lemma_dec_digits_all(n: nat)
    ensures
        dec_digits(n).len() >= 1,
        all_digits(dec_digits(n)),
    decreases n,
{
    if n < 10 {
    } else {
        lemma_dec_digits_all(n / 10);
        let ds = dec_digits(n);
        assert(ds == dec_digits(n / 10).push(digit_char((n % 10) as int)));
        assert forall|i: int| 0 <= i < ds.len() implies is_digit(#[trigger] ds[i]) by {
            if i < ds.len() - 1 {
                assert(ds[i] == dec_digits(n / 10)[i]);
            }
        }
    }
}

pub proof fn lemma_dec_digits_val(n: nat)
    ensures
        digits_val(dec_digits(n)) == n,
    decreases n,
{
    if n < 10 {
        let ds = dec_digits(n);
        assert(ds.last() == digit_char(n as int));
        assert(ds.drop_last() =~= Seq::<char>::empty());
        assert(digits_val(Seq::<char>::empty()) == 0);
        assert(digits_val(ds) == digit_of(digit_char(n as int)));
        assert(digit_of(digit_char(n as int)) == n);
    } else {
        lemma_dec_digits_val(n / 10);
        let ds = dec_digits(n);
        assert(ds.drop_last() =~= dec_digits(n / 10));
        assert(ds.last() == digit_char((n % 10) as int));
        assert(digit_of(digit_char((n % 10) as int)) == n % 10);
        assert(digits_val(ds) == (n / 10) * 10 + n % 10);
        assert((n / 10) * 10 + n % 10 == n) by {
            vstd::arithmetic::div_mod::lemma_fundamental_div_mod(n as int, 10);
        }
    }
}

/// Character-by-character string equality.
pub fn str_equal(a: &str, b: &str) -> (r: bool)
    ensures
        r == (a@ == b@),
{
    let alen = a.unicode_len();
    let blen = b.unicode_len();
    if alen != blen {
        return false;
    }
    let mut i: usize = 0;
    while i < alen
        invariant
            i <= alen,
            alen == a@.len(),
            alen == b@.len(),
            forall|j: int| 0 <= j < i ==> a@[j] == b@[j],
        decreases alen - i,
    {
        if a.get_char(i) != b.get_char(i) {
            return false;
        }
        i += 1;
    }
    proof {
        assert(a@ =~= b@);
    }
    true
}

/// Strips `p` from the front of `s`, or reports that `p` is not a prefix.
pub fn strip_prefix_str<'a>(s: &'a str, p: &str) -> (r: Option<&'a str>)
    ensures
        match r {
            Some(rest) => is_prefix(p@, s@) && rest@ == s@.subrange(p@.len() as int, s@.len() as int),
            None => !is_prefix(p@, s@),
        },
{
    let slen = s.unicode_len();
    let plen = p.unicode_len();
    if plen > slen {
        return None;
    }
    if str_equal(s.substring_char(0, plen), p) {
        Some(s.substring_char(plen, slen))
    } else {
        None
    }
}

proof fn lemma_trim_at(s: Seq<char>, end: int)
    requires
        0 <= end <= s.len(),
        forall|j: int| end <= j < s.len() ==> s[j] == ',',
        end > 0 ==> s[end - 1] != ',',
    ensures
        spec_trim_trailing_commas(s) == s.subrange(0, end),
    decreases s.len(),
{
    if s.len() == 0 {
        assert(s.subrange(0, 0) =~= s);
    } else if s.last() == ',' {
        lemma_trim_at(s.drop_last(), end);
        assert(s.drop_last().subrange(0, end) =~= s.subrange(0, end));
    } else {
        assert(end == s.len());
        assert(s.subrange(0, end) =~= s);
    }
}

/// Removes every trailing comma.
pub fn trim_trailing_commas<'a>(s: &'a str) -> (r: &'a str)
    ensures
        r@ == spec_trim_trailing_commas(s@),
{
    let slen = s.unicode_len();
    let mut end = slen;
    loop
        invariant_except_break
            end <= slen,
            slen == s@.len(),
            forall|j: int| end <= j < s@.len() ==> s@[j] == ',',
        ensures
            end <= slen,
            slen == s@.len(),
            forall|j: int| end <= j < s@.len() ==> s@[j] == ',',
            end > 0 ==> s@[end - 1] != ',',
        decreases end,
    {
        if end == 0 {
            break;
        }
        if s.get_char(end - 1) != ',' {
            break;
        }
        end -= 1;
    }
    proof {
        lemma_trim_at(s@, end as int);
    }
    s.substring_char(0, end)
}

pub proof fn lemma_split_once_at(s: Seq<char>, i: int)
    requires
        0 <= i < s.len(),
        s[i] == ':',
        forall|j: int| 0 <= j < i ==> s[j] != ':',
    ensures
        spec_split_once_colon(s) == Some(
            (s.subrange(0, i), s.subrange(i + 1, s.len() as int)),
        ),
    decreases i,
{
    if i == 0 {
        assert(s.subrange(0, 0) =~= Seq::<char>::empty());
    } else {
        let s1 = s.subrange(1, s.len() as int);
        lemma_split_once_at(s1, i - 1);
        assert(seq![s[0]] + s1.subrange(0, i - 1) =~= s.subrange(0, i));
        assert(s1.subrange(i, s1.len() as int) =~= s.subrange(i + 1, s.len() as int));
    }
}

proof fn lemma_split_once_none(s: Seq<char>)
    requires
        forall|j: int| 0 <= j < s.len() ==> s[j] != ':',
    ensures
        spec_split_once_colon(s) == None::<(Seq<char>, Seq<char>)>,
    decreases s.len(),
{
    if s.len() > 0 {
        lemma_split_once_none(s.subrange(1, s.len() as int));
    }
}

/// Splits `s` at its first colon, into the parts before and after it.
pub fn split_once_colon(s: &str) -> (r: Option<(String, String)>)
    ensures
        match (r, spec_split_once_colon(s@)) {
            (Some(p), Some(q)) => p.0@ == q.0 && p.1@ == q.1,
            (None, None) => true,
            _ => false,
        },
{
    let slen = s.unicode_len();
    let mut i: usize = 0;
    while i < slen
        invariant
            i <= slen,
            slen == s@.len(),
            forall|j: int| 0 <= j < i ==> s@[j] != ':',
        decreases slen - i,
    {
        if s.get_char(i) == ':' {
            proof {
                lemma_split_once_at(s@, i as int);
            }
            return Some(
                (s.substring_char(0, i).to_owned(), s.substring_char(i + 1, slen).to_owned()),
            );
        }
        i += 1;
    }
    proof {
        lemma_split_once_none(s@);
    }
    None
}

proof fn lemma_digits_val_prefix_le(s: Seq<char>, i: int)
    requires
        0 <= i <= s.len(),
        all_digits(s),
    ensures
        digits_val(s.subrange(0, i)) <= digits_val(s),
    decreases s.len() - i,
{
    if i == s.len() {
        assert(s.subrange(0, i) =~= s);
    } else {
        let p1 = s.subrange(0, i + 1);
        assert(p1.drop_last() =~= s.subrange(0, i));
        assert(is_digit(s[i]));
        assert(digits_val(p1) >= digits_val(s.subrange(0, i)));
        lemma_digits_val_prefix_le(s, i + 1);
    }
}

/// Parses a non-empty all-digit string as a number that fits in `u32`.
pub fn parse_decimal_u32(s: &str) -> (r: Option<u32>)
    ensures
        match r {
            Some(v) => s@.len() > 0 && all_digits(s@) && digits_val(s@) <= u32::MAX && v
                == digits_val(s@),
            None => !(s@.len() > 0 && all_digits(s@) && digits_val(s@) <= u32::MAX),
        },
{
    let slen = s.unicode_len();
    if slen == 0 {
        return None;
    }
    let mut i: usize = 0;
    let mut acc: u64 = 0;
    while i < slen
        invariant
            i <= slen,
            slen == s@.len(),
            forall|j: int| 0 <= j < i ==> is_digit(#[trigger] s@[j]),
            acc == digits_val(s@.subrange(0, i as int)),
            acc <= u32::MAX,
        decreases slen - i,
    {
        let c = s.get_char(i);
        let cv = c as u32;
        if cv < 48 || cv > 57 {
            return None;
        }
        let d = (cv - 48) as u64;
        let next = acc * 10 + d;
        proof {
            assert(s@.subrange(0, (i + 1) as int).drop_last() =~= s@.subrange(0, i as int));
            assert(s@.subrange(0, (i + 1) as int).last() == s@[i as int]);
        }
        if next > 0xffff_ffff {
            proof {
                if all_digits(s@) {
                    lemma_digits_val_prefix_le(s@, (i + 1) as int);
                }
            }
            return None;
        }
        acc = next;
        i += 1;
    }
    proof {
        assert(s@.subrange(0, slen as int) =~= s@);
    }
    Some(acc as u32)
}

/// Parses a non-empty all-digit string as a number that fits in `u64`.
pub fn parse_decimal_u64(s: &str) -> (r: Option<u64>)
    ensures
        match r {
            Some(v) => s@.len() > 0 && all_digits(s@) && digits_val(s@) <= u64::MAX && v
                == digits_val(s@),
            None => !(s@.len() > 0 && all_digits(s@) && digits_val(s@) <= u64::MAX),
        },
{
    let slen = s.unicode_len();
    if slen == 0 {
        return None;
    }
    let mut i: usize = 0;
    let mut acc: u128 = 0;
    while i < slen
        invariant
            i <= slen,
            slen == s@.len(),
            forall|j: int| 0 <= j < i ==> is_digit(#[trigger] s@[j]),
            acc == digits_val(s@.subrange(0, i as int)),
            acc <= u64::MAX,
        decreases slen - i,
    {
        let c = s.get_char(i);
        let cv = c as u32;
        if cv < 48 || cv > 57 {
            return None;
        }
        let d = (cv - 48) as u128;
        let next = acc * 10 + d;
        proof {
            assert(s@.subrange(0, (i + 1) as int).drop_last() =~= s@.subrange(0, i as int));
            assert(s@.subrange(0, (i + 1) as int).last() == s@[i as int]);
        }
        if next > 0xffff_ffff_ffff_ffff {
            proof {
                if all_digits(s@) {
                    lemma_digits_val_prefix_le(s@, (i + 1) as int);
                }
            }
            return None;
        }
        acc = next;
        i += 1;
    }
    proof {
        assert(s@.subrange(0, slen as int) =~= s@);
    }
    Some(acc as u64)
}

fn digit_to_char(d: u64) -> (c: char)
    requires
        d < 10,
    ensures
        c == digit_char(d as int),
{
    if d == 0 {
        '0'
    } else if d == 1 {
        '1'
    } else if d == 2 {
        '2'
    } else if d == 3 {
        '3'
    } else if d == 4 {
        '4'
    } else if d == 5 {
        '5'
    } else if d == 6 {
        '6'
    } else if d == 7 {
        '7'
    } else if d == 8 {
        '8'
    } else {
        '9'
    }
}

/// Relies on `String::push` of std, which vstd does not specify: it appends
/// exactly the given character at the end.
#[verifier::external_body]
pub fn push_char(s: &mut String, c: char)
    ensures
        final(s)@ == old(s)@.push(c),
{
    s.push(c);
}

/// Renders `n` in decimal notation.
pub fn u64_to_dec(n: u64) -> (r: String)
    ensures
        r@ == dec_digits(n as nat),
    decreases n,
{
    if n < 10 {
        let mut s = String::new();
        push_char(&mut s, digit_to_char(n));
        proof {
            assert(s@ =~= dec_digits(n as nat));
        }
        s
    } else {
        let mut s = u64_to_dec(n / 10);
        push_char(&mut s, digit_to_char(n % 10));
        s
    }
}

/// Strict lexicographic comparison by code point.
pub fn str_lex_lt(a: &str, b: &str) -> (r: bool)
    ensures
        r == lex_lt(a@, b@),
    decreases a@.len(),
{
    let alen = a.unicode_len();
    let blen = b.unicode_len();
    if blen == 0 {
        false
    } else if alen == 0 {
        true
    } else {
        let ca = a.get_char(0) as u32;
        let cb = b.get_char(0) as u32;
        if ca < cb {
            true
        } else if ca > cb {
            false
        } else {
            str_lex_lt(a.substring_char(1, alen), b.substring_char(1, blen))
        }
    }
}

/// The index of the leftmost match of `d` in `s`, if there is one.
pub fn find_first_match(s: &str, d: &str) -> (r: Option<usize>)
    requires
        d@.len() > 0,
    ensures
        match r {
            Some(i) => i + d@.len() <= s@.len() && s@.subrange(i as int, i + d@.len() as int) == d@
                && forall|j: int|
                0 <= j < i ==> #[trigger] s@.subrange(j, j + d@.len() as int) != d@,
            None => forall|j: int|
                0 <= j && j + d@.len() <= s@.len() ==> #[trigger] s@.subrange(
                    j,
                    j + d@.len() as int,
                ) != d@,
        },
{
    let slen = s.unicode_len();
    let dlen = d.unicode_len();
    if dlen > slen {
        return None;
    }
    let mut i: usize = 0;
    while i <= slen - dlen
        invariant
            slen == s@.len(),
            dlen == d@.len(),
            0 < dlen <= slen,
            i <= slen - dlen + 1,
            forall|j: int| 0 <= j < i ==> #[trigger] s@.subrange(j, j + d@.len() as int) != d@,
        decreases slen - i,
    {
        if str_equal(s.substring_char(i, i + dlen), d) {
            return Some(i);
        }
        i += 1;
    }
    None
}

/// Splits `s` on the non-empty delimiter `d`, leftmost match first.
pub fn split_str(s: &str, d: &str) -> (r: Vec<String>)
    requires
        d@.len() > 0,
    ensures
        seq_views(r@) == spec_split(s@, d@),
    decreases s@.len(),
{
    let slen = s.unicode_len();
    let dlen = d.unicode_len();
    match find_first_match(s, d) {
        Some(i) => {
            let piece = s.substring_char(0, i).to_owned();
            let tail = s.substring_char(i + dlen, slen);
            let mut rest = split_str(tail, d);
            proof {
                lemma_split_match_at(s@, d@, i as int);
            }
            rest.insert(0, piece);
            proof {
                assert(seq_views(rest@) =~= spec_split(s@, d@));
            }
            rest
        },
        None => {
            proof {
                lemma_split_no_match(s@, d@);
            }
            let mut r: Vec<String> = Vec::new();
            r.push(s.to_owned());
            proof {
                assert(seq_views(r@) =~= spec_split(s@, d@));
            }
            r
        },
    }
}

} // verus!
