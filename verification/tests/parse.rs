use rsummary::parse::{parse_merge_commit, parse_subject, ParseError};

#[test]
fn parses_direct_auto_merge_line_exactly() {
    let line = "f77bfb7336f21bfe6a5fb5f7358d4406e2597289::::Auto merge of #108620 - Dylan-DPC:rollup-o5c4evy, r=Dylan-DPC::::bors";
    let m = parse_merge_commit(line).unwrap().unwrap();
    assert_eq!(m.hash, "f77bfb7336f21bfe6a5fb5f7358d4406e2597289");
    assert_eq!(m.pr, 108620);
    assert_eq!(m.author, "Dylan-DPC");
    assert_eq!(m.branch, "rollup-o5c4evy");
    assert_eq!(m.approved_by, vec!["Dylan-DPC".to_owned()]);
    assert!(m.rollup_by.is_none());
}

#[test]
fn parses_rollup_merge_with_commit_author_as_rollup_author() {
    let line = "02e4eefd88a55776cbb163c1ba025f0736e52026::::Rollup merge of #108605 - JohnTitor:issue-105821, r=compiler-errors::::Dylan DPC";
    let m = parse_merge_commit(line).unwrap().unwrap();
    assert_eq!(m.hash, "02e4eefd88a55776cbb163c1ba025f0736e52026");
    assert_eq!(m.pr, 108605);
    assert_eq!(m.author, "JohnTitor");
    assert_eq!(m.branch, "issue-105821");
    assert_eq!(m.approved_by, vec!["compiler-errors".to_owned()]);
    assert_eq!(m.rollup_by, Some("Dylan DPC".to_owned()));
}

#[test]
fn non_merge_subject_is_not_an_error() {
    let r = parse_merge_commit("abc::::Fix typo::::someone");
    assert!(matches!(r, Ok(None)));
}

#[test]
fn non_merge_subject_in_parse_subject() {
    let r = parse_subject("Fix typo");
    assert!(matches!(r, Ok(None)));
}

#[test]
fn auto_merge_not_by_bot_account_is_discarded() {
    let r = parse_merge_commit("abc::::Auto merge of #1 - a:b, r=c::::someone");
    assert!(matches!(r, Ok(None)));
}

#[test]
fn rollup_merge_keeps_any_commit_author() {
    let m = parse_merge_commit("abc::::Rollup merge of #7 - a:b, r=c::::whoever")
        .unwrap()
        .unwrap();
    assert_eq!(m.rollup_by, Some("whoever".to_owned()));
}

#[test]
fn discard_check_runs_before_token_validation() {
    // A direct merge by the wrong account is discarded even though its PR
    // token could never parse.
    let r = parse_merge_commit("abc::::Auto merge of #bad - nocolon, r=c::::someone");
    assert!(matches!(r, Ok(None)));
}

#[test]
fn wrong_field_count_is_no_delimiters() {
    assert_eq!(
        parse_merge_commit("no delimiters at all").unwrap_err(),
        ParseError::NoDelimiters
    );
    assert_eq!(
        parse_merge_commit("a::::b::::c::::d").unwrap_err(),
        ParseError::NoDelimiters
    );
}

#[test]
fn second_token_must_be_a_dash() {
    assert_eq!(
        parse_merge_commit("h::::Auto merge of #1 x a:b, r=c::::bors").unwrap_err(),
        ParseError::NoDash
    );
    assert_eq!(
        parse_merge_commit("h::::Auto merge of #1::::bors").unwrap_err(),
        ParseError::NoDash
    );
}

#[test]
fn missing_author_and_branch_token() {
    assert_eq!(
        parse_merge_commit("h::::Auto merge of #1 -::::bors").unwrap_err(),
        ParseError::NoAuthorAndBranch
    );
}

#[test]
fn missing_or_malformed_approver_token() {
    assert_eq!(
        parse_merge_commit("h::::Auto merge of #1 - a:b,::::bors").unwrap_err(),
        ParseError::NoR
    );
    assert_eq!(
        parse_merge_commit("h::::Auto merge of #1 - a:b, x=c::::bors").unwrap_err(),
        ParseError::NoR
    );
}

#[test]
fn author_and_branch_without_colon_is_invalid() {
    assert_eq!(
        parse_merge_commit("h::::Auto merge of #1 - nocolon, r=c::::bors").unwrap_err(),
        ParseError::InvalidAuthorAndBranch
    );
}

#[test]
fn author_and_branch_is_validated_before_the_pr_number() {
    assert_eq!(
        parse_merge_commit("h::::Auto merge of #bad - nocolon, r=c::::bors").unwrap_err(),
        ParseError::InvalidAuthorAndBranch
    );
}

#[test]
fn pr_token_must_be_hash_and_positive_digits() {
    assert_eq!(
        parse_merge_commit("h::::Auto merge of #abc - a:b, r=c::::bors").unwrap_err(),
        ParseError::InvalidPrNumber
    );
    assert_eq!(
        parse_merge_commit("h::::Auto merge of 12 - a:b, r=c::::bors").unwrap_err(),
        ParseError::InvalidPrNumber
    );
    assert_eq!(
        parse_merge_commit("h::::Auto merge of #0 - a:b, r=c::::bors").unwrap_err(),
        ParseError::InvalidPrNumber
    );
    assert_eq!(
        parse_merge_commit("h::::Auto merge of #99999999999 - a:b, r=c::::bors").unwrap_err(),
        ParseError::InvalidPrNumber
    );
    // The largest representable pull-request number still parses.
    let m = parse_merge_commit("h::::Auto merge of #4294967295 - a:b, r=c::::bors")
        .unwrap()
        .unwrap();
    assert_eq!(m.pr, u32::MAX);
}

#[test]
fn approver_list_splits_on_commas() {
    let m = parse_merge_commit("h::::Auto merge of #2 - a:b, r=x,y,z::::bors")
        .unwrap()
        .unwrap();
    assert_eq!(
        m.approved_by,
        vec!["x".to_owned(), "y".to_owned(), "z".to_owned()]
    );
}

#[test]
fn empty_approver_list_is_one_empty_name() {
    let m = parse_merge_commit("h::::Auto merge of #2 - a:b, r=::::bors")
        .unwrap()
        .unwrap();
    assert_eq!(m.approved_by, vec![String::new()]);
}

#[test]
fn tokens_after_the_approver_token_are_ignored() {
    let m = parse_merge_commit("h::::Auto merge of #3 - a:b, r=c extra words::::bors")
        .unwrap()
        .unwrap();
    assert_eq!(m.pr, 3);
    assert_eq!(m.approved_by, vec!["c".to_owned()]);
}

#[test]
fn branch_may_contain_further_colons() {
    let m = parse_merge_commit("h::::Auto merge of #4 - user:feat:sub, r=c::::bors")
        .unwrap()
        .unwrap();
    assert_eq!(m.author, "user");
    assert_eq!(m.branch, "feat:sub");
}

#[test]
fn trailing_commas_are_trimmed_from_author_and_branch() {
    let m = parse_merge_commit("h::::Auto merge of #5 - user:branch,,, r=c::::bors")
        .unwrap()
        .unwrap();
    assert_eq!(m.branch, "branch");
}

#[test]
fn parse_subject_extracts_the_tokens() {
    let s = parse_subject("Auto merge of #1 - a:b, r=c").unwrap().unwrap();
    assert_eq!(s.pr, "#1");
    assert_eq!(s.author_and_branch, "a:b,");
    assert_eq!(s.r, "r=c");
    assert!(!s.is_rollup);
    let s = parse_subject("Rollup merge of #1 - a:b, r=c").unwrap().unwrap();
    assert!(s.is_rollup);
}
