use rsummary::render::print;
use rsummary::repo::{analyze_repo, Repo};

fn lines(ls: &[&str]) -> Vec<String> {
    ls.iter().map(|s| (*s).to_owned()).collect()
}

fn history() -> Vec<String> {
    lines(&[
        "h1::::Auto merge of #1 - alice:one, r=carol::::bors",
        "junk line without delimiters? not even one",
        "h2::::Fix typo::::whoever",
        "h3::::Rollup merge of #2 - bob:two, r=carol,dave::::Dylan DPC",
        "h4::::Auto merge of #3 - alice:three, r=dave::::bors",
        "h5::::Auto merge of #4 - alice:four, r=carol::::not-the-bot",
    ])
}

#[test]
fn analysis_keeps_only_bot_merges_in_line_order() {
    let repo = analyze_repo(&history());
    let merges = repo.merges();
    assert_eq!(merges.len(), 3);
    assert_eq!(merges[0].pr, 1);
    assert_eq!(merges[1].pr, 2);
    assert_eq!(merges[2].pr, 3);
}

#[test]
fn malformed_line_skipped_without_affecting_others() {
    let with_bad = lines(&[
        "h1::::Auto merge of #1 - alice:one, r=carol::::bors",
        "h9::::Auto merge of #bad - nocolon r=::::bors",
        "h4::::Auto merge of #3 - alice:three, r=dave::::bors",
    ]);
    let repo = analyze_repo(&with_bad);
    assert_eq!(repo.merges().len(), 2);
    assert_eq!(repo.merges()[0].pr, 1);
    assert_eq!(repo.merges()[1].pr, 3);
}

#[test]
fn authored_by_returns_records_in_discovery_order() {
    let repo = analyze_repo(&history());
    let alice = repo.authored_by("alice");
    assert_eq!(alice.len(), 2);
    assert_eq!(alice[0].pr, 1);
    assert_eq!(alice[1].pr, 3);
    let bob = repo.authored_by("bob");
    assert_eq!(bob.len(), 1);
    assert_eq!(bob[0].pr, 2);
    assert!(repo.authored_by("nobody").is_empty());
}

#[test]
fn approved_by_returns_records_in_discovery_order() {
    let repo = analyze_repo(&history());
    let carol = repo.approved_by("carol");
    assert_eq!(carol.len(), 2);
    assert_eq!(carol[0].pr, 1);
    assert_eq!(carol[1].pr, 2);
    let dave = repo.approved_by("dave");
    assert_eq!(dave.len(), 2);
    assert_eq!(dave[0].pr, 2);
    assert_eq!(dave[1].pr, 3);
    assert!(repo.approved_by("nobody").is_empty());
}

#[test]
fn duplicate_approvals_in_one_record_count_twice() {
    let repo = analyze_repo(&lines(&[
        "h1::::Auto merge of #1 - alice:one, r=carol,carol::::bors",
    ]));
    let carol = repo.approved_by("carol");
    assert_eq!(carol.len(), 2);
    assert_eq!(carol[0].pr, 1);
    assert_eq!(carol[1].pr, 1);
}

#[test]
fn analysis_is_deterministic() {
    let ls = history();
    let a = analyze_repo(&ls);
    let b = analyze_repo(&ls);
    assert_eq!(a.merges().len(), b.merges().len());
    for (x, y) in a.merges().iter().zip(b.merges().iter()) {
        assert_eq!(x.hash, y.hash);
        assert_eq!(x.author, y.author);
        assert_eq!(x.branch, y.branch);
        assert_eq!(x.approved_by, y.approved_by);
        assert_eq!(x.pr, y.pr);
        assert_eq!(x.rollup_by, y.rollup_by);
    }
    assert_eq!(a.print_authored_by("alice"), b.print_authored_by("alice"));
}

#[test]
fn grouped_by_approver_for_one_author() {
    let repo = analyze_repo(&history());
    let g = repo.authored_by_grouped("alice");
    // alice's records: #1 approved by carol, #3 approved by dave.
    assert_eq!(g.len(), 2);
    assert_eq!(g[0].0, "carol");
    assert_eq!(g[0].1.len(), 1);
    assert_eq!(g[0].1[0].pr, 1);
    assert_eq!(g[1].0, "dave");
    assert_eq!(g[1].1[0].pr, 3);
}

#[test]
fn grouped_by_author_for_one_approver() {
    let repo = analyze_repo(&history());
    let g = repo.approved_by_grouped("carol");
    assert_eq!(g.len(), 2);
    assert_eq!(g[0].0, "alice");
    assert_eq!(g[0].1[0].pr, 1);
    assert_eq!(g[1].0, "bob");
    assert_eq!(g[1].1[0].pr, 2);
}

#[test]
fn print_ranks_by_descending_count() {
    let repo = analyze_repo(&lines(&[
        "h1::::Auto merge of #1 - alice:b1, r=carol::::bors",
        "h2::::Auto merge of #2 - alice:b2, r=carol::::bors",
        "h3::::Auto merge of #3 - alice:b3, r=dave::::bors",
    ]));
    let out = repo.print_authored_by("alice").unwrap();
    assert_eq!(out, "2 r=carol\n1 r=dave\n");
}

#[test]
fn print_pads_counts_to_the_widest() {
    let mut ls: Vec<String> = Vec::new();
    for i in 0..10 {
        ls.push(format!(
            "h{}::::Auto merge of #{} - alice:b{}, r=carol::::bors",
            i,
            i + 1,
            i
        ));
    }
    ls.push("hx::::Auto merge of #11 - alice:bx, r=dave::::bors".to_owned());
    let repo = analyze_repo(&ls);
    let out = repo.print_authored_by("alice").unwrap();
    assert_eq!(out, "10 r=carol\n 1 r=dave\n");
}

#[test]
fn print_breaks_count_ties_by_username_ascending() {
    let repo = analyze_repo(&lines(&[
        "h1::::Auto merge of #1 - alice:b1, r=zoe::::bors",
        "h2::::Auto merge of #2 - alice:b2, r=ann::::bors",
    ]));
    let out = repo.print_authored_by("alice").unwrap();
    assert_eq!(out, "1 r=ann\n1 r=zoe\n");
}

#[test]
fn print_of_empty_grouping_is_nothing() {
    let repo = analyze_repo(&history());
    assert!(repo.print_authored_by("nobody").is_none());
    assert!(repo.print_approved_by("nobody").is_none());
    assert!(print(Vec::new(), 'r').is_none());
}

#[test]
fn print_approved_by_uses_the_author_marker() {
    let repo = analyze_repo(&history());
    let out = repo.print_approved_by("dave").unwrap();
    assert_eq!(out, "1 a=alice\n1 a=bob\n");
}

#[test]
fn default_repo_is_empty() {
    let repo = Repo::default();
    assert_eq!(repo.merges().len(), 0);
    assert!(repo.print_authored_by("alice").is_none());
}
