use repo_recall::activity::{
    attrs, is_action_required, is_dormant, is_rankable, normalisers, score, sort, AttrFn, Category,
};
use repo_recall::db::Repo;

fn repo(id: i64, name: &str, sessions: i64, commits: i64) -> Repo {
    Repo {
        id,
        name: name.into(),
        path: format!("/tmp/{name}"),
        session_count: sessions,
        commits_30d: commits,
        loc_churn_30d: 0,
        untracked_files: 0,
        modified_files: 0,
        authors_30d: 0,
        ci_status: None,
        commits_ahead: 0,
        commits_behind: 0,
        stash_count: 0,
        head_ref: None,
        in_progress_op: None,
        open_prs: 0,
        draft_prs: 0,
        open_issues: 0,
        prs_awaiting_my_review: 0,
        prs_mine_awaiting_review: 0,
        remote_url: None,
        default_branch: None,
    }
}

/// The score as a number: the sum of the logarithms of the fractions.
fn points(r: &Repo, norms: &Vec<u128>) -> f64 {
    score(r, norms)
        .iter()
        .map(|(top, bottom)| (*top as f64 / *bottom as f64).ln())
        .sum()
}

fn names(repos: &[Repo]) -> Vec<&str> {
    repos.iter().map(|r| r.name.as_str()).collect()
}

#[test]
fn balanced_beats_lopsided() {
    let mut repos = vec![
        repo(1, "lopsided", 0, 20),
        repo(2, "balanced", 5, 5),
        repo(3, "dormant", 0, 0),
    ];
    sort(&mut repos);
    assert_eq!(repos[0].name, "balanced");
    assert_eq!(repos[1].name, "lopsided");
    assert_eq!(repos[2].name, "dormant");
}

#[test]
fn equal_scores_break_alphabetically() {
    let mut repos = vec![repo(1, "zulu", 0, 0), repo(2, "alpha", 0, 0)];
    sort(&mut repos);
    assert_eq!(repos[0].name, "alpha");
    assert_eq!(repos[1].name, "zulu");
}

#[test]
fn zero_normaliser_does_not_panic() {
    let ns = normalisers(&vec![repo(1, "a", 0, 0)]);
    assert!(points(&repo(1, "a", 0, 0), &ns).abs() < 1e-12);
}

#[test]
fn median_gives_typical_repo_a_meaningful_score() {
    let repos = vec![
        repo(1, "solo-giant", 0, 1000),
        repo(2, "typical-a", 0, 10),
        repo(3, "typical-b", 0, 10),
        repo(4, "typical-c", 0, 10),
    ];
    let ns = normalisers(&repos);
    let typical = points(&repos[1], &ns);
    assert!((typical - 2f64.ln()).abs() < 1e-9, "got {typical}");
    let outlier = points(&repos[0], &ns);
    assert!(outlier > typical);
}

#[test]
fn in_progress_and_detached_head_trigger_action_required() {
    let mut rebasing = repo(1, "rebasing", 0, 0);
    rebasing.in_progress_op = Some("rebase".into());
    assert!(is_action_required(&rebasing));

    let mut detached = repo(2, "detached", 0, 0);
    detached.head_ref = Some("detached".into());
    assert!(is_action_required(&detached));

    let mut on_main = repo(3, "on-main", 0, 0);
    on_main.head_ref = Some("main".into());
    assert!(!is_action_required(&on_main));
}

#[test]
fn dormant_detection() {
    assert!(is_dormant(&repo(1, "x", 0, 0)));
    assert!(!is_dormant(&repo(1, "x", 1, 0)));
    assert!(!is_dormant(&repo(1, "x", 0, 1)));
}

#[test]
fn action_required_hard_sorts_to_top() {
    let mut noisy_clean = repo(1, "noisy-clean", 20, 500);
    noisy_clean.authors_30d = 15;
    noisy_clean.ci_status = Some("success".into());

    let mut dormant_broken = repo(2, "dormant-broken", 0, 0);
    dormant_broken.ci_status = Some("failure".into());

    let mut quiet_dirty = repo(3, "quiet-dirty", 0, 0);
    quiet_dirty.modified_files = 3;

    let mut quiet_clean = repo(4, "quiet-clean", 0, 0);
    quiet_clean.ci_status = Some("success".into());

    let mut repos = vec![
        noisy_clean.clone(),
        quiet_clean,
        dormant_broken.clone(),
        quiet_dirty.clone(),
    ];
    sort(&mut repos);

    assert!(is_action_required(&repos[0]));
    assert!(is_action_required(&repos[1]));
    assert_eq!(repos[0].name, "dormant-broken");
    assert_eq!(repos[1].name, "quiet-dirty");
    assert_eq!(repos[2].name, "noisy-clean");
    assert_eq!(repos[3].name, "quiet-clean");
}

#[test]
fn dimensions_have_their_keys_and_categories() {
    let list = attrs();
    let keys: Vec<&str> = list.iter().map(|a| a.key).collect();
    assert_eq!(
        keys,
        vec![
            "sessions",
            "commits_30d",
            "loc_churn_30d",
            "authors_30d",
            "uncommitted_files",
            "ci_failing",
            "prs_awaiting_my_review",
            "open_prs",
        ]
    );
    assert_eq!(list[3].category, Category::Historical);
    assert_eq!(list[4].category, Category::LocalState);
    assert_eq!(list[5].category, Category::RemoteState);
    assert_eq!(list[4].get, AttrFn::Uncommitted);
}

#[test]
fn dimensions_read_their_values() {
    let mut r = repo(1, "x", 3, 4);
    r.loc_churn_30d = 5;
    r.authors_30d = 6;
    r.untracked_files = 7;
    r.modified_files = 8;
    r.ci_status = Some("failure".into());
    r.prs_awaiting_my_review = 9;
    r.open_prs = 10;
    let values: Vec<i128> = attrs().iter().map(|a| a.get.value(&r)).collect();
    assert_eq!(values, vec![3, 4, 5, 6, 15, 1, 9, 10]);
    r.untracked_files = i64::MAX;
    r.modified_files = i64::MAX;
    assert_eq!(AttrFn::Uncommitted.value(&r), 2 * (i64::MAX as i128));
}

#[test]
fn norms_are_doubled_medians_of_what_is_not_zero() {
    let repos = vec![
        repo(1, "a", 4, 1),
        repo(2, "b", 0, 7),
        repo(3, "c", 9, 0),
        repo(4, "d", 0, 3),
    ];
    let ns = normalisers(&repos);
    assert_eq!(ns[0], 13);
    assert_eq!(ns[1], 6);
    assert_eq!(&ns[2..], &[0, 0, 0, 0, 0, 0]);
    assert_eq!(score(&repos[1], &ns)[1], (6 + 14, 6));
    assert_eq!(score(&repos[1], &ns)[0], (13, 13));
    assert_eq!(score(&repos[1], &ns)[2], (1, 1));
}

#[test]
fn sorting_keeps_ties_in_order_and_settles() {
    let mut repos = vec![
        repo(1, "Same", 0, 0),
        repo(2, "same", 0, 0),
        repo(3, "SAME", 0, 0),
        repo(4, "busy", 2, 2),
    ];
    sort(&mut repos);
    let ids: Vec<i64> = repos.iter().map(|r| r.id).collect();
    assert_eq!(ids, vec![4, 1, 2, 3]);
    sort(&mut repos);
    let again: Vec<i64> = repos.iter().map(|r| r.id).collect();
    assert_eq!(again, ids);
}

#[test]
fn names_are_compared_in_lower_case() {
    let mut repos = vec![
        repo(1, "beta", 0, 0),
        repo(2, "Alpha", 0, 0),
        repo(3, "GAMMA", 0, 0),
        repo(4, "ÄPFEL", 0, 0),
        repo(5, "äpfel2", 0, 0),
    ];
    sort(&mut repos);
    assert_eq!(names(&repos), vec!["Alpha", "beta", "GAMMA", "ÄPFEL", "äpfel2"]);
}

#[test]
fn the_order_is_that_of_the_scores() {
    let mut repos = Vec::new();
    for i in 0..40i64 {
        let mut r = repo(i, &format!("r{i:02}"), (i * 7) % 11, (i * 13) % 17);
        r.loc_churn_30d = (i * i * 37) % 4001;
        r.authors_30d = i % 5;
        r.open_prs = (i * 3) % 4;
        repos.push(r);
    }
    let ns = normalisers(&repos);
    sort(&mut repos);
    for pair in repos.windows(2) {
        let (a, b) = (points(&pair[0], &ns), points(&pair[1], &ns));
        assert!(a > b - 1e-9, "{a} before {b}");
        if (a - b).abs() < 1e-12 {
            assert!(pair[0].name < pair[1].name);
        }
    }
}

#[test]
fn huge_counts_are_ranked_exactly() {
    let mut a = repo(1, "a", i64::MAX, i64::MAX);
    a.loc_churn_30d = i64::MAX;
    a.authors_30d = i64::MAX;
    a.prs_awaiting_my_review = i64::MAX;
    a.open_prs = i64::MAX - 1;
    let mut b = a.clone();
    b.name = "b".into();
    b.id = 2;
    b.open_prs = i64::MAX;
    let mut repos = vec![a, b];
    sort(&mut repos);
    assert_eq!(names(&repos), vec!["b", "a"]);
}

#[test]
fn more_activity_never_ranks_lower() {
    let a = repo(1, "a", 3, 3);
    let mut b = a.clone();
    b.commits_30d = 4;
    let repos = vec![a, b];
    let ns = normalisers(&repos);
    assert!(points(&repos[1], &ns) > points(&repos[0], &ns));
}

#[test]
fn dormant_repos_score_nothing() {
    let repos = vec![repo(1, "quiet", 0, 0), repo(2, "loud", 5, 5)];
    let ns = normalisers(&repos);
    assert_eq!(points(&repos[0], &ns), 0.0);
    assert!(points(&repos[1], &ns) > 0.0);
}

#[test]
fn counts_can_be_ranked_and_odd_values_cannot() {
    assert!(is_rankable(&vec![repo(1, "a", 0, 5), repo(2, "b", 3, 0)]));
    assert!(is_rankable(&Vec::new()));
    assert!(!is_rankable(&vec![repo(1, "a", 4, 0), repo(2, "b", -5, 0)]));
}

#[test]
fn each_trigger_requires_action() {
    let mut r = repo(1, "x", 0, 0);
    assert!(!is_action_required(&r));
    r.untracked_files = 1;
    assert!(is_action_required(&r));
    r.untracked_files = 0;
    r.ci_status = Some("failure".into());
    assert!(is_action_required(&r));
    r.ci_status = Some("running".into());
    assert!(!is_action_required(&r));
    r.prs_awaiting_my_review = 2;
    assert!(!is_action_required(&r));
    r.prs_awaiting_my_review = 0;
    r.open_prs = 9;
    assert!(!is_action_required(&r));
}

#[test]
fn norms_do_not_depend_on_the_order() {
    let mut repos = vec![repo(1, "a", 4, 1), repo(2, "b", 2, 7), repo(3, "c", 9, 0)];
    let before = normalisers(&repos);
    repos.reverse();
    assert_eq!(normalisers(&repos), before);
    repos.swap(0, 1);
    assert_eq!(normalisers(&repos), before);
}

#[test]
fn the_first_order_does_not_matter() {
    let make = || vec![repo(1, "a", 4, 1), repo(2, "b", 2, 7), repo(3, "c", 9, 0), repo(4, "d", 0, 0)];
    let mut one = make();
    let mut other = make();
    other.reverse();
    sort(&mut one);
    sort(&mut other);
    assert_eq!(names(&one), names(&other));
}
