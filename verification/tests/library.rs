use git_fuzzy::branches::Branch;
use git_fuzzy::branches::get_all_branches;
use git_fuzzy::branches::get_git_refs;
use git_fuzzy::branches::get_git_remotes;
use git_fuzzy::branches::get_tracking_branches;
use git_fuzzy::highlight::highlight_match;
use git_fuzzy::matching::Action;
use git_fuzzy::matching::dispatch;
use git_fuzzy::matching::match_branch_exactly;
use git_fuzzy::matching::match_branch_substring;
use git_fuzzy::matching::match_branches;
use git_fuzzy::text::find_byte;
use git_fuzzy::text::find_sub;
use git_fuzzy::text::split_lines;

fn names(branches: &[Branch]) -> Vec<Vec<u8>> {
    branches.iter().map(|b| b.name.clone()).collect()
}

fn sample_tracking_set() -> Vec<Branch> {
    let locals = vec![b"main".to_vec(), b"feature-x".to_vec()];
    let groups = vec![vec![b"origin/main".to_vec(), b"origin/feature-y".to_vec()]];
    let all = get_all_branches(&locals, &groups);
    get_tracking_branches(&all)
}

#[test]
fn all_branches_order_and_tags() {
    let locals = vec![b"main".to_vec(), b"feature-x".to_vec()];
    let groups = vec![vec![b"origin/main".to_vec(), b"origin/feature-y".to_vec()]];
    let all = get_all_branches(&locals, &groups);
    assert_eq!(
        names(&all),
        vec![
            b"main".to_vec(),
            b"feature-x".to_vec(),
            b"origin/main".to_vec(),
            b"origin/feature-y".to_vec(),
        ]
    );
    assert!(!all[0].is_remote);
    assert!(!all[1].is_remote);
    assert!(all[2].is_remote);
    assert!(all[3].is_remote);
}

#[test]
fn tracking_filter_drops_shadowed_remote() {
    let tracking = sample_tracking_set();
    assert_eq!(
        names(&tracking),
        vec![b"main".to_vec(), b"feature-x".to_vec(), b"origin/feature-y".to_vec()]
    );
    assert!(!tracking[0].is_remote);
    assert!(!tracking[1].is_remote);
    assert!(tracking[2].is_remote);
}

#[test]
fn tracking_filter_is_idempotent_on_sample() {
    let once = sample_tracking_set();
    let twice = get_tracking_branches(&once);
    assert_eq!(names(&once), names(&twice));
    for (a, b) in once.iter().zip(twice.iter()) {
        assert_eq!(a.is_remote, b.is_remote);
    }
}

#[test]
fn tracking_filter_keeps_unshadowed_remotes_of_every_remote() {
    let locals = vec![b"main".to_vec()];
    let groups = vec![
        vec![b"origin/main".to_vec(), b"origin/feature".to_vec()],
        vec![b"upstream/feature".to_vec()],
    ];
    let all = get_all_branches(&locals, &groups);
    let once = get_tracking_branches(&all);
    assert_eq!(
        names(&once),
        vec![b"main".to_vec(), b"origin/feature".to_vec(), b"upstream/feature".to_vec()]
    );
    let twice = get_tracking_branches(&once);
    assert_eq!(names(&once), names(&twice));
}

#[test]
fn branch_new_keeps_name_and_flag() {
    let b = Branch::new(b"origin/dev".to_vec(), true);
    assert_eq!(b.name, b"origin/dev".to_vec());
    assert!(b.is_remote);
}

#[test]
fn tracking_filter_drops_remote_without_separator() {
    let all = vec![Branch::new(b"odd".to_vec(), true), Branch::new(b"kept".to_vec(), false)];
    let tracking = get_tracking_branches(&all);
    assert_eq!(names(&tracking), vec![b"kept".to_vec()]);
}

#[test]
fn ambiguous_substring_match() {
    let tracking = sample_tracking_set();
    let needle = b"feature".to_vec();
    let exact = match_branch_exactly(&tracking, &needle);
    assert!(exact.is_empty());
    let selected = match_branches(&tracking, &needle);
    assert_eq!(
        names(&selected),
        vec![b"feature-x".to_vec(), b"origin/feature-y".to_vec()]
    );
    match dispatch(&selected) {
        Action::ReportAmbiguity => {}
        _ => panic!("two matches must be reported as ambiguous"),
    }
    let parts = highlight_match(&selected[0].name, &needle);
    assert_eq!(parts.matched, b"feature".to_vec());
    let parts = highlight_match(&selected[1].name, &needle);
    assert_eq!(parts.matched, b"feature".to_vec());
}

#[test]
fn exact_match_wins_over_substring() {
    let tracking = sample_tracking_set();
    let needle = b"main".to_vec();
    let selected = match_branches(&tracking, &needle);
    assert_eq!(names(&selected), vec![b"main".to_vec()]);
    match dispatch(&selected) {
        Action::CheckoutBranch(b) => assert_eq!(b.name, b"main".to_vec()),
        _ => panic!("a single match must be checked out as a branch"),
    }
}

#[test]
fn exact_match_beats_longer_substring_match() {
    let branches = vec![
        Branch::new(b"dev".to_vec(), false),
        Branch::new(b"develop".to_vec(), false),
    ];
    let needle = b"dev".to_vec();
    let selected = match_branches(&branches, &needle);
    assert_eq!(names(&selected), vec![b"dev".to_vec()]);
}

#[test]
fn no_match_falls_back_to_commit() {
    let tracking = sample_tracking_set();
    let needle = b"zzz-nonexistent".to_vec();
    let selected = match_branches(&tracking, &needle);
    assert!(selected.is_empty());
    match dispatch(&selected) {
        Action::CheckoutCommit => {}
        _ => panic!("no match must fall back to a commit checkout"),
    }
}

#[test]
fn substring_match_keeps_order() {
    let branches = vec![
        Branch::new(b"b-dev-1".to_vec(), false),
        Branch::new(b"other".to_vec(), false),
        Branch::new(b"a-dev-2".to_vec(), true),
    ];
    let needle = b"dev".to_vec();
    let matched = match_branch_substring(&branches, &needle);
    assert_eq!(names(&matched), vec![b"b-dev-1".to_vec(), b"a-dev-2".to_vec()]);
}

#[test]
fn highlight_splits_around_first_occurrence() {
    let name = b"origin/feature-y".to_vec();
    let needle = b"feature".to_vec();
    let parts = highlight_match(&name, &needle);
    assert_eq!(parts.before, b"origin/".to_vec());
    assert_eq!(parts.matched, b"feature".to_vec());
    assert_eq!(parts.after, b"-y".to_vec());
    let mut rebuilt = parts.before.clone();
    rebuilt.extend_from_slice(&parts.matched);
    rebuilt.extend_from_slice(&parts.after);
    assert_eq!(rebuilt, name);
}

#[test]
fn highlight_of_repeated_needle_picks_first() {
    let name = b"dev-dev".to_vec();
    let needle = b"dev".to_vec();
    let parts = highlight_match(&name, &needle);
    assert_eq!(parts.before, b"".to_vec());
    assert_eq!(parts.matched, b"dev".to_vec());
    assert_eq!(parts.after, b"-dev".to_vec());
}

#[test]
fn highlight_without_match_returns_name_unmodified() {
    let name = b"main".to_vec();
    let needle = b"zzz".to_vec();
    let parts = highlight_match(&name, &needle);
    assert_eq!(parts.before, b"main".to_vec());
    assert!(parts.matched.is_empty());
    assert!(parts.after.is_empty());
}

#[test]
fn split_lines_handles_trailing_newline() {
    let out = split_lines(&b"main\nfeature-x\n".to_vec());
    assert_eq!(out, vec![b"main".to_vec(), b"feature-x".to_vec()]);
}

#[test]
fn split_lines_handles_empty_text() {
    let out = split_lines(&b"".to_vec());
    assert!(out.is_empty());
}

#[test]
fn split_lines_keeps_inner_empty_line() {
    let out = split_lines(&b"a\n\nb".to_vec());
    assert_eq!(out, vec![b"a".to_vec(), b"".to_vec(), b"b".to_vec()]);
}

#[test]
fn split_lines_strips_carriage_returns() {
    let out = split_lines(&b"a\r\nb\r".to_vec());
    assert_eq!(out, vec![b"a".to_vec(), b"b".to_vec()]);
}

#[test]
fn remotes_come_from_listing_output() {
    let out = get_git_remotes(&Ok(b"origin\nupstream\n".to_vec()));
    assert_eq!(out, vec![b"origin".to_vec(), b"upstream".to_vec()]);
}

#[test]
fn failed_listing_degrades_to_no_remotes() {
    let out = get_git_remotes(&Err(b"fatal: not a git repository".to_vec()));
    assert!(out.is_empty());
    let refs = get_git_refs(&Err(b"boom".to_vec()));
    assert!(refs.is_empty());
}

#[test]
fn refs_come_from_listing_output() {
    let refs = get_git_refs(&Ok(b"main\nfeature-x\n".to_vec()));
    assert_eq!(refs, vec![b"main".to_vec(), b"feature-x".to_vec()]);
}

#[test]
fn find_byte_reports_first_position() {
    assert_eq!(find_byte(&b"origin/main".to_vec(), b'/'), 6);
    assert_eq!(find_byte(&b"main".to_vec(), b'/'), 4);
}

#[test]
fn find_sub_reports_first_occurrence() {
    assert_eq!(find_sub(&b"develop".to_vec(), &b"dev".to_vec()), Some(0));
    assert_eq!(find_sub(&b"a-dev".to_vec(), &b"dev".to_vec()), Some(2));
    assert_eq!(find_sub(&b"main".to_vec(), &b"dev".to_vec()), None);
    assert_eq!(find_sub(&b"main".to_vec(), &b"".to_vec()), Some(0));
}
