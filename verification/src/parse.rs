//! Parser for one line of merge-bot-formatted commit-log text, as produced by
//! a log query printing `hash::::subject::::commitAuthor` per commit.

use vstd::prelude::*;

use crate::strutil::{
    all_digits, digits_val, is_prefix, parse_decimal_u32, seq_views, spec_split,
    spec_split_once_colon, spec_trim_trailing_commas, split_once_colon, split_str, str_equal,
    strip_prefix_str, trim_trailing_commas,
};

verus! {

/// One bot-merged pull request, recovered from a commit-log line.
#[derive(Debug)]
pub struct MergeCommit {
    pub hash: String,
    pub author: String,
    pub branch: String,
    pub approved_by: Vec<String>,
    pub pr: u32,
    pub rollup_by: Option<String>,
}

/// Mathematical value of a [`MergeCommit`]: every field as character sequences.
pub struct MergeCommitView {
    pub hash: Seq<char>,
    pub author: Seq<char>,
    pub branch: Seq<char>,
    pub approved_by: Seq<Seq<char>>,
    pub pr: u32,
    pub rollup_by: Option<Seq<char>>,
}

impl View for MergeCommit {
    type V = MergeCommitView;

    open spec fn view(&self) -> MergeCommitView {
        MergeCommitView {
            hash: self.hash@,
            author: self.author@,
            branch: self.branch@,
            approved_by: seq_views(self.approved_by@),
            pr: self.pr,
            rollup_by: match self.rollup_by {
                Some(s) => Some(s@),
                None => None,
            },
        }
    }
}

/// Why a line that looked structured enough to attempt could not be parsed.
#[derive(Debug, PartialEq, Eq, Structural, Clone, Copy)]
pub enum ParseError {
    NoPr,
    NoDash,
    NoAuthorAndBranch,
    NoR,
    InvalidAuthorAndBranch,
    InvalidPrNumber,
    NoDelimiters,
}

/// Minimally parsed subject of a bot-managed merge commit.
#[derive(Debug)]
pub struct Subject {
    /// `author:branch,` token.
    pub author_and_branch: String,
    /// `#12345` token.
    pub pr: String,
    /// `r=...` token.
    pub r: String,
    /// Whether the subject is a batched ("rollup") merge.
    pub is_rollup: bool,
}

/// Mathematical value of a [`Subject`].
pub struct SubjectView {
    pub author_and_branch: Seq<char>,
    pub pr: Seq<char>,
    pub r: Seq<char>,
    pub is_rollup: bool,
}

impl View for Subject {
    type V = SubjectView;

    open spec fn view(&self) -> SubjectView {
        SubjectView {
            author_and_branch: self.author_and_branch@,
            pr: self.pr@,
            r: self.r@,
            is_rollup: self.is_rollup,
        }
    }
}

/// The field delimiter of a log line.
pub open spec fn delim() -> Seq<char> {
    "::::"@
}

/// Subject prefix of a batched merge.
pub open spec fn rollup_prefix() -> Seq<char> {
    "Rollup merge of "@
}

/// Subject prefix of a direct merge by the bot.
pub open spec fn auto_prefix() -> Seq<char> {
    "Auto merge of "@
}

/// The merge-automation account that direct merges must be authored by.
pub open spec fn bot_account() -> Seq<char> {
    "bors"@
}

/// What parsing a merge-commit subject returns: the three significant tokens
/// after the prefix, or the error that names the first missing one, or
/// nothing for a subject that is not a bot merge at all.
pub open spec fn spec_parse_subject(subject: Seq<char>) -> Result<Option<SubjectView>, ParseError> {
    if is_prefix(rollup_prefix(), subject) {
        spec_parse_subject_rest(
            subject.subrange(rollup_prefix().len() as int, subject.len() as int),
            true,
        )
    } else if is_prefix(auto_prefix(), subject) {
        spec_parse_subject_rest(
            subject.subrange(auto_prefix().len() as int, subject.len() as int),
            false,
        )
    } else {
        Ok(None)
    }
}

/// Tokenization of the subject after its prefix: the first four tokens of a
/// single-space split are the PR token, a literal dash, the author-and-branch
/// token, and the approver token; later tokens are ignored.
pub open spec fn spec_parse_subject_rest(rest: Seq<char>, is_rollup: bool) -> Result<
    Option<SubjectView>,
    ParseError,
> {
    let toks = spec_split(rest, " "@);
    if toks.len() < 2 || toks[1] != "-"@ {
        Err(ParseError::NoDash)
    } else if toks.len() < 3 {
        Err(ParseError::NoAuthorAndBranch)
    } else if toks.len() < 4 {
        Err(ParseError::NoR)
    } else {
        Ok(
            Some(
                SubjectView {
                    author_and_branch: toks[2],
                    pr: toks[0],
                    r: toks[3],
                    is_rollup,
                },
            ),
        )
    }
}

/// The pull-request number denoted by a `#<digits>` token, provided the
/// digits denote a positive number that fits in `u32`.
pub open spec fn spec_parse_pr(tok: Seq<char>) -> Option<u32> {
    if tok.len() >= 1 && tok[0] == '#' {
        let ds = tok.subrange(1, tok.len() as int);
        if ds.len() > 0 && all_digits(ds) && digits_val(ds) <= u32::MAX && digits_val(ds) > 0 {
            Some(digits_val(ds) as u32)
        } else {
            None
        }
    } else {
        None
    }
}

/// What parsing a whole log line returns. The line must have exactly three
/// `::::`-delimited fields; a subject that is no bot merge, or a direct merge
/// not authored by the bot account, yields no record rather than an error.
pub open spec fn spec_parse_line(line: Seq<char>) -> Result<Option<MergeCommitView>, ParseError> {
    let parts = spec_split(line, delim());
    if parts.len() != 3 {
        Err(ParseError::NoDelimiters)
    } else {
        match spec_parse_subject(parts[1]) {
            Err(e) => Err(e),
            Ok(None) => Ok(None),
            Ok(Some(sub)) => {
                if !sub.is_rollup && parts[2] != bot_account() {
                    Ok(None)
                } else {
                    let rollup_by = if sub.is_rollup {
                        Some(parts[2])
                    } else {
                        None
                    };
                    match spec_split_once_colon(spec_trim_trailing_commas(sub.author_and_branch)) {
                        None => Err(ParseError::InvalidAuthorAndBranch),
                        Some((author, branch)) => match spec_parse_pr(sub.pr) {
                            None => Err(ParseError::InvalidPrNumber),
                            Some(pr) => {
                                if !is_prefix("r="@, sub.r) {
                                    Err(ParseError::NoR)
                                } else {
                                    let approved_by = spec_split(
                                        sub.r.subrange("r="@.len() as int, sub.r.len() as int),
                                        ","@,
                                    );
                                    Ok(
                                        Some(
                                            MergeCommitView {
                                                hash: parts[0],
                                                author,
                                                branch,
                                                approved_by,
                                                pr,
                                                rollup_by,
                                            },
                                        ),
                                    )
                                }
                            },
                        },
                    }
                }
            },
        }
    }
}

/// The view of an exec subject-parse result.
pub open spec fn subject_result_view(r: Result<Option<Subject>, ParseError>) -> Result<
    Option<SubjectView>,
    ParseError,
> {
    match r {
        Ok(None) => Ok(None),
        Ok(Some(s)) => Ok(Some(s@)),
        Err(e) => Err(e),
    }
}

/// The view of an exec line-parse result.
pub open spec fn merge_result_view(r: Result<Option<MergeCommit>, ParseError>) -> Result<
    Option<MergeCommitView>,
    ParseError,
> {
    match r {
        Ok(None) => Ok(None),
        Ok(Some(m)) => Ok(Some(m@)),
        Err(e) => Err(e),
    }
}

/// Parses the subject of a commit in a bot-managed repository: recognizes the
/// rollup and direct merge prefixes and extracts the significant tokens.
pub fn parse_subject(subject: &str) -> (res: Result<Option<Subject>, ParseError>)
    ensures
        subject_result_view(res) == spec_parse_subject(subject@),
{
    let rest: &str;
    let is_rollup: bool;
    if let Some(r) = strip_prefix_str(subject, "Rollup merge of ") {
        rest = r;
        is_rollup = true;
    } else if let Some(r) = strip_prefix_str(subject, "Auto merge of ") {
        rest = r;
        is_rollup = false;
    } else {
        return Ok(None);
    }
    proof {
        reveal_strlit(" ");
    }
    let toks = split_str(rest, " ");
    if toks.len() < 2 {
        return Err(ParseError::NoDash);
    }
    if !str_equal(toks[1].as_str(), "-") {
        return Err(ParseError::NoDash);
    }
    if toks.len() < 3 {
        return Err(ParseError::NoAuthorAndBranch);
    }
    if toks.len() < 4 {
        return Err(ParseError::NoR);
    }
    Ok(
        Some(
            Subject {
                author_and_branch: toks[2].clone(),
                pr: toks[0].clone(),
                r: toks[3].clone(),
                is_rollup,
            },
        ),
    )
}

/// Parses one line of merge-bot-formatted commit-log output
/// (`hash::::subject::::commitAuthor`) into a merge-commit record. A line
/// whose subject is no bot merge parses to nothing; a line that looks like a
/// bot merge but is malformed parses to the error naming the defect.
pub fn parse_merge_commit(source: &str) -> (res: Result<Option<MergeCommit>, ParseError>)
    ensures
        merge_result_view(res) == spec_parse_line(source@),
{
    proof {
        reveal_strlit("::::");
        reveal_strlit(",");
    }
    let parts = split_str(source, "::::");
    if parts.len() != 3 {
        return Err(ParseError::NoDelimiters);
    }
    let sub = match parse_subject(parts[1].as_str()) {
        Err(e) => return Err(e),
        Ok(None) => return Ok(None),
        Ok(Some(s)) => s,
    };
    let rollup_by: Option<String>;
    if sub.is_rollup {
        rollup_by = Some(parts[2].clone());
    } else if str_equal(parts[2].as_str(), "bors") {
        rollup_by = None;
    } else {
        return Ok(None);
    }
    let ab = trim_trailing_commas(sub.author_and_branch.as_str());
    let (author, branch) = match split_once_colon(ab) {
        None => return Err(ParseError::InvalidAuthorAndBranch),
        Some(p) => p,
    };
    let pr = match parse_pr_token(sub.pr.as_str()) {
        None => return Err(ParseError::InvalidPrNumber),
        Some(n) => n,
    };
    let rbody = match strip_prefix_str(sub.r.as_str(), "r=") {
        None => return Err(ParseError::NoR),
        Some(b) => b,
    };
    let approved_by = split_str(rbody, ",");
    Ok(
        Some(
            MergeCommit {
                hash: parts[0].clone(),
                author,
                branch,
                approved_by,
                pr,
                rollup_by,
            },
        ),
    )
}

/// Every record the parser recovers satisfies the record invariant: a
/// positive pull-request number and a non-empty approver list.
pub proof fn lemma_record_invariant(line: Seq<char>)
    ensures
        spec_parse_line(line) matches Ok(Some(m)) ==> m.pr > 0 && m.approved_by.len() >= 1,
{
    let parts = spec_split(line, delim());
    if parts.len() == 3 {
        match spec_parse_subject(parts[1]) {
            Ok(Some(sub)) => {
                crate::strutil::lemma_split_len(
                    sub.r.subrange("r="@.len() as int, sub.r.len() as int),
                    ","@,
                );
            },
            _ => {},
        }
    }
}

/// No character of `s` is `c`.
pub open spec fn no_char(s: Seq<char>, c: char) -> bool {
    forall|i: int| 0 <= i < s.len() ==> s[i] != c
}

/// A username or branch fit to appear in a bot-merge subject: it contains no
/// colon, no space and no comma.
pub open spec fn wf_name(s: Seq<char>) -> bool {
    no_char(s, ':') && no_char(s, ' ') && no_char(s, ',')
}

/// The subject the bot writes for a merge of the given fields.
pub open spec fn spec_bot_subject(
    pr: u32,
    author: Seq<char>,
    branch: Seq<char>,
    approvers: Seq<Seq<char>>,
    rollup: bool,
) -> Seq<char> {
    let t0 = seq!['#'] + crate::strutil::dec_digits(pr as nat);
    let t2 = author + seq![':'] + branch + seq![','];
    let t3 = "r="@ + crate::strutil::join1(approvers, ',');
    (if rollup {
        rollup_prefix()
    } else {
        auto_prefix()
    }) + crate::strutil::join1(seq![t0, seq!['-'], t2, t3], ' ')
}

/// The whole log line the bot's merge commit produces for the given fields.
pub open spec fn spec_bot_line(
    hash: Seq<char>,
    pr: u32,
    author: Seq<char>,
    branch: Seq<char>,
    approvers: Seq<Seq<char>>,
    rollup: bool,
    commit_author: Seq<char>,
) -> Seq<char> {
    hash + delim() + spec_bot_subject(pr, author, branch, approvers, rollup) + delim()
        + commit_author
}

proof fn lemma_literal_chars()
    ensures
        delim().len() == 4,
        forall|k: int| 0 <= k < 4 ==> #[trigger] delim()[k] == ':',
        rollup_prefix().len() == 16,
        auto_prefix().len() == 14,
        no_char(rollup_prefix(), ':'),
        no_char(auto_prefix(), ':'),
        rollup_prefix()[0] == 'R',
        auto_prefix()[0] == 'A',
        "r="@.len() == 2,
        "r="@[0] == 'r',
        "r="@[1] == '=',
        " "@ =~= seq![' '],
        ","@ =~= seq![','],
        "-"@ =~= seq!['-'],
{
    reveal_strlit("::::");
    reveal_strlit("Rollup merge of ");
    reveal_strlit("Auto merge of ");
    reveal_strlit("r=");
    reveal_strlit(" ");
    reveal_strlit(",");
    reveal_strlit("-");
}

/// Parsing a well-formed bot-merge line recovers every field exactly: for a
/// rollup merge the rollup author is the commit author verbatim; a direct
/// merge is one committed by the bot account.
#[verifier::rlimit(100)]
pub proof fn lemma_parse_recovers_fields(
    hash: Seq<char>,
    pr: u32,
    author: Seq<char>,
    branch: Seq<char>,
    approvers: Seq<Seq<char>>,
    rollup: bool,
    commit_author: Seq<char>,
)
    requires
        no_char(hash, ':'),
        wf_name(author),
        wf_name(branch),
        approvers.len() >= 1,
        forall|t: int|
            0 <= t < approvers.len() ==> wf_name(#[trigger] approvers[t]) && approvers[t].len()
                > 0,
        pr >= 1,
        no_char(commit_author, ':'),
        !rollup ==> commit_author == bot_account(),
    ensures
        spec_parse_line(spec_bot_line(hash, pr, author, branch, approvers, rollup, commit_author))
            == Ok::<Option<MergeCommitView>, ParseError>(
            Some(
                MergeCommitView {
                    hash,
                    author,
                    branch,
                    approved_by: approvers,
                    pr,
                    rollup_by: if rollup {
                        Some(commit_author)
                    } else {
                        None
                    },
                },
            ),
        ),
{
    lemma_literal_chars();
    let line = spec_bot_line(hash, pr, author, branch, approvers, rollup, commit_author);
    let subject = spec_bot_subject(pr, author, branch, approvers, rollup);
    let prefix = if rollup {
        rollup_prefix()
    } else {
        auto_prefix()
    };
    let ds = crate::strutil::dec_digits(pr as nat);
    let t0 = seq!['#'] + ds;
    let dash = seq!['-'];
    let t2 = author + seq![':'] + branch + seq![','];
    let rp = "r="@;
    let joined = crate::strutil::join1(approvers, ',');
    let t3 = rp + joined;
    let toks = seq![t0, dash, t2, t3];
    let rest = crate::strutil::join1(toks, ' ');
    let d = delim();

    crate::strutil::lemma_dec_digits_all(pr as nat);
    crate::strutil::lemma_dec_digits_val(pr as nat);
    assert(no_char(ds, ':') && no_char(ds, ' ')) by {
        assert(forall|i: int|
            0 <= i < ds.len() ==> crate::strutil::is_digit(#[trigger] ds[i]));
    }

    // Character counts: the one colon of the subject sits inside its third
    // token, and no token contains a space.
    crate::strutil::lemma_count_single('#', ':');
    crate::strutil::lemma_count_single(':', ':');
    crate::strutil::lemma_count_single(',', ':');
    crate::strutil::lemma_count_single('-', ':');
    crate::strutil::lemma_count_single('#', ' ');
    crate::strutil::lemma_count_single(':', ' ');
    crate::strutil::lemma_count_single(',', ' ');
    crate::strutil::lemma_count_single('-', ' ');
    crate::strutil::lemma_count_zero(ds, ':');
    crate::strutil::lemma_count_zero(ds, ' ');
    crate::strutil::lemma_count_zero(author, ':');
    crate::strutil::lemma_count_zero(author, ' ');
    crate::strutil::lemma_count_zero(branch, ':');
    crate::strutil::lemma_count_zero(branch, ' ');
    crate::strutil::lemma_count_zero(rp, ':');
    crate::strutil::lemma_count_zero(rp, ' ');
    assert forall|t: int| 0 <= t < approvers.len() implies crate::strutil::count_char(
        #[trigger] approvers[t],
        ':',
    ) == 0 && crate::strutil::count_char(approvers[t], ' ') == 0 by {
        crate::strutil::lemma_count_zero(approvers[t], ':');
        crate::strutil::lemma_count_zero(approvers[t], ' ');
    }
    crate::strutil::lemma_tokens_count_zero(approvers, ':');
    crate::strutil::lemma_tokens_count_zero(approvers, ' ');
    crate::strutil::lemma_join1_count(approvers, ',', ':');
    crate::strutil::lemma_join1_count(approvers, ',', ' ');
    crate::strutil::lemma_count_concat(seq!['#'], ds, ':');
    crate::strutil::lemma_count_concat(seq!['#'], ds, ' ');
    crate::strutil::lemma_count_concat(author, seq![':'], ':');
    crate::strutil::lemma_count_concat(author + seq![':'], branch, ':');
    crate::strutil::lemma_count_concat(author + seq![':'] + branch, seq![','], ':');
    crate::strutil::lemma_count_concat(author, seq![':'], ' ');
    crate::strutil::lemma_count_concat(author + seq![':'], branch, ' ');
    crate::strutil::lemma_count_concat(author + seq![':'] + branch, seq![','], ' ');
    crate::strutil::lemma_count_concat(rp, joined, ':');
    crate::strutil::lemma_count_concat(rp, joined, ' ');
    assert(crate::strutil::count_char(t0, ':') == 0);
    assert(crate::strutil::count_char(dash, ':') == 0);
    assert(crate::strutil::count_char(t2, ':') == 1);
    assert(crate::strutil::count_char(t3, ':') == 0);
    assert(crate::strutil::count_char(t0, ' ') == 0);
    assert(crate::strutil::count_char(dash, ' ') == 0);
    assert(crate::strutil::count_char(t2, ' ') == 0);
    assert(crate::strutil::count_char(t3, ' ') == 0);
    crate::strutil::lemma_tokens_count4(t0, dash, t2, t3, ':');
    crate::strutil::lemma_join1_count(toks, ' ', ':');
    assert(crate::strutil::count_char(rest, ':') == 1);
    crate::strutil::lemma_count_zero(prefix, ':');
    crate::strutil::lemma_count_concat(prefix, rest, ':');
    assert(crate::strutil::count_char(subject, ':') == 1);

    // The subject's last character is the last approver's last character, a
    // comma-free, colon-free name character.
    crate::strutil::lemma_join1_last(approvers, ',');
    assert(joined.last() == approvers.last().last());
    assert(joined.last() != ':');
    crate::strutil::lemma_join1_last(toks, ' ');
    assert(rest.last() == t3.last());
    assert(t3.last() == joined.last());
    assert(subject.len() > 0 && subject.last() == rest.last());
    assert(subject.last() != ':');

    // Split the line on the delimiter: exactly three fields.
    assert forall|j: int| 0 <= j < hash.len() implies #[trigger] line.subrange(j, j + d.len() as int)
        != d by {
        assert(line.subrange(j, j + 4)[0] == line[j]);
        assert(line[j] == hash[j]);
    }
    assert(line.subrange(hash.len() as int, hash.len() as int + 4) =~= d);
    crate::strutil::lemma_split_match_at(line, d, hash.len() as int);
    let rem1 = line.subrange(hash.len() as int + 4, line.len() as int);
    assert(rem1 =~= subject + d + commit_author);
    assert(line.subrange(0, hash.len() as int) =~= hash);

    let s2 = subject + d + commit_author;
    assert forall|j: int| 0 <= j < subject.len() implies #[trigger] s2.subrange(
        j,
        j + d.len() as int,
    ) != d by {
        assert(s2.subrange(j, j + 4)[0] == s2[j]);
        assert(s2[j] == subject[j]);
        if subject[j] == ':' {
            assert(s2.subrange(j, j + 4)[1] == s2[j + 1]);
            if j + 1 < subject.len() {
                if subject[j + 1] == ':' {
                    crate::strutil::lemma_count_at_most_one(subject, ':', j, j + 1);
                }
                assert(s2[j + 1] == subject[j + 1]);
                assert(s2.subrange(j, j + 4)[1] != ':');
            } else {
                assert(j == subject.len() - 1);
                assert(subject.last() == ':');
            }
        }
    }
    assert(s2.subrange(subject.len() as int, subject.len() as int + 4) =~= d);
    crate::strutil::lemma_split_match_at(s2, d, subject.len() as int);
    assert(s2.subrange(0, subject.len() as int) =~= subject);
    let rem2 = s2.subrange(subject.len() as int + 4, s2.len() as int);
    assert(rem2 =~= commit_author);

    assert forall|j: int| 0 <= j && j + d.len() <= commit_author.len() implies
        #[trigger] commit_author.subrange(j, j + d.len() as int) != d by {
        assert(commit_author.subrange(j, j + 4)[0] == commit_author[j]);
    }
    crate::strutil::lemma_split_no_match(commit_author, d);

    let parts = crate::strutil::spec_split(line, d);
    assert(parts =~= seq![hash, subject, commit_author]);
    assert(parts.len() == 3);
    assert(parts[0] == hash && parts[1] == subject && parts[2] == commit_author);

    // Recognize the subject prefix.
    if rollup {
        assert(subject.subrange(0, 16) =~= rollup_prefix());
        assert(crate::strutil::is_prefix(rollup_prefix(), subject));
        assert(subject.subrange(16, subject.len() as int) =~= rest);
    } else {
        assert(!crate::strutil::is_prefix(rollup_prefix(), subject)) by {
            if crate::strutil::is_prefix(rollup_prefix(), subject) {
                assert(subject.subrange(0, 16)[0] == subject[0]);
                assert(subject[0] == auto_prefix()[0]);
            }
        }
        assert(subject.subrange(0, 14) =~= auto_prefix());
        assert(crate::strutil::is_prefix(auto_prefix(), subject));
        assert(subject.subrange(14, subject.len() as int) =~= rest);
    }

    // Tokenize the rest on single spaces: exactly the four tokens.
    crate::strutil::lemma_count_zero_char(t0, ' ');
    crate::strutil::lemma_count_zero_char(t2, ' ');
    crate::strutil::lemma_count_zero_char(t3, ' ');
    assert forall|t: int, i: int|
        0 <= t < toks.len() && 0 <= i < toks[t].len() implies (#[trigger] toks[t][i]) != ' ' by {
        if t == 0 {
            assert(toks[0] == t0);
        } else if t == 1 {
            assert(toks[1] == dash);
        } else if t == 2 {
            assert(toks[2] == t2);
        } else {
            assert(toks[3] == t3);
        }
    }
    crate::strutil::lemma_split_join1(toks, ' ');
    assert(crate::strutil::spec_split(rest, " "@) == toks) by {
        assert(" "@ =~= seq![' ']);
    }
    assert(toks[1] == dash && dash =~= "-"@);
    let sub = SubjectView { author_and_branch: t2, pr: t0, r: t3, is_rollup: rollup };
    assert(spec_parse_subject_rest(rest, rollup) == Ok::<Option<SubjectView>, ParseError>(Some(sub)));
    assert(spec_parse_subject(subject) == Ok::<Option<SubjectView>, ParseError>(Some(sub)));

    // Trim the trailing comma and split author from branch at the colon.
    let abx = author + seq![':'] + branch;
    assert(t2.last() == ',');
    assert(t2.drop_last() =~= abx);
    assert(abx.last() != ',') by {
        if branch.len() > 0 {
            assert(abx.last() == branch.last());
        } else {
            assert(abx.last() == ':');
        }
    }
    assert(spec_trim_trailing_commas(abx) == abx);
    assert(spec_trim_trailing_commas(t2) == spec_trim_trailing_commas(abx));
    assert(abx[author.len() as int] == ':');
    assert forall|j: int| 0 <= j < author.len() implies abx[j] != ':' by {
        assert(abx[j] == author[j]);
    }
    crate::strutil::lemma_split_once_at(abx, author.len() as int);
    assert(abx.subrange(0, author.len() as int) =~= author);
    assert(abx.subrange(author.len() as int + 1, abx.len() as int) =~= branch);

    // The pull-request token.
    assert(t0[0] == '#');
    assert(t0.subrange(1, t0.len() as int) =~= ds);
    assert(spec_parse_pr(t0) == Some(pr));

    // The approver token.
    assert(t3.subrange(0, 2) =~= rp);
    assert(crate::strutil::is_prefix("r="@, t3));
    assert(t3.subrange(2, t3.len() as int) =~= joined);
    assert forall|t: int, i: int|
        0 <= t < approvers.len() && 0 <= i < approvers[t].len() implies (#[trigger] approvers[t][i])
        != ',' by {}
    crate::strutil::lemma_split_join1(approvers, ',');
    assert(crate::strutil::spec_split(joined, ","@) == approvers) by {
        assert(","@ =~= seq![',']);
    }

    if !rollup {
        assert(parts[2] == bot_account());
    }
}

/// Parses a `#<digits>` pull-request token as a positive number.
pub fn parse_pr_token(tok: &str) -> (r: Option<u32>)
    ensures
        r == spec_parse_pr(tok@),
{
    let tlen = tok.unicode_len();
    if tlen == 0 {
        return None;
    }
    if tok.get_char(0) != '#' {
        return None;
    }
    let ds = tok.substring_char(1, tlen);
    match parse_decimal_u32(ds) {
        None => None,
        Some(v) => if v > 0 {
            Some(v)
        } else {
            None
        },
    }
}

} // verus!
