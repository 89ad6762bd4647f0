use repo_recall::activity::is_action_required;
use repo_recall::dashboard::{
    action_summary, author_toggle, ci_failure_link, ci_pill, has_short_form, list_uncommitted,
    remote_link, repo_pills, repo_rows, short_sha, standup, uncommitted_heading, DashboardParams,
    Tone,
};
use repo_recall::db::{
    CiFailure, Commit, CommitWithRepo, FileHotspot, Repo, Session, SessionWithRepos,
    UncommittedGroup,
};
use repo_recall::pages::{
    commit_chips, hotspot_row, role_label, summary_or_none, token_line, PageStatus,
};
use repo_recall::transcript::TurnRole;

fn repo(name: &str) -> Repo {
    Repo {
        id: 1,
        name: name.into(),
        path: format!("/p/team/{name}"),
        session_count: 0,
        commits_30d: 0,
        loc_churn_30d: 0,
        untracked_files: 0,
        modified_files: 0,
        authors_30d: 0,
        ci_status: None,
        commits_ahead: 0,
        commits_behind: 0,
        stash_count: 0,
        head_ref: None,
        in_progress_op: None,
        open_prs: 0,
        draft_prs: 0,
        open_issues: 0,
        prs_awaiting_my_review: 0,
        prs_mine_awaiting_review: 0,
        remote_url: None,
        default_branch: None,
    }
}

fn commit(repo_id: i64, repo_name: &str, timestamp: i64, subject: &str) -> CommitWithRepo {
    CommitWithRepo {
        commit: Commit {
            id: 1,
            repo_id,
            sha: "0123456789abcdef".into(),
            author_name: "A".into(),
            author_email: "a@x".into(),
            timestamp,
            subject: subject.into(),
        },
        repo_id,
        repo_name: repo_name.into(),
        repo_path: String::new(),
        repo_remote_url: None,
    }
}

fn session(started_at: Option<i64>, summary: Option<&str>) -> SessionWithRepos {
    SessionWithRepos {
        session: Session {
            id: 1,
            session_uuid: "u".into(),
            cwd: None,
            started_at,
            ended_at: None,
            message_count: 0,
            summary: summary.map(String::from),
            source_file: String::new(),
            duration_ms: None,
            input_tokens: 0,
            output_tokens: 1_500,
            cache_read_tokens: 2_000_000,
            cache_creation_tokens: 7,
        },
        repos: Vec::new(),
    }
}

#[test]
fn filters_are_resolved() {
    let me = Some("me@x".to_string());
    let ask = |a: Option<&str>| DashboardParams { author: a.map(String::from) }.author_filter(&me);
    assert_eq!(ask(None), None);
    assert_eq!(ask(Some("")), None);
    assert_eq!(ask(Some("all")), None);
    assert_eq!(ask(Some("me")).as_deref(), Some("me@x"));
    assert_eq!(ask(Some("you@x")).as_deref(), Some("you@x"));
    assert_eq!(DashboardParams { author: Some("me".into()) }.author_filter(&None), None);
}

#[test]
fn the_toggle_knows_what_is_active() {
    assert!(author_toggle(None, Some("x")).is_none());
    let all = author_toggle(Some("me@x"), None).unwrap();
    assert!(all.all_active && !all.me_active);
    assert_eq!(all.title, "author filter — currently all");
    let mine = author_toggle(Some("me@x"), Some("me@x")).unwrap();
    assert!(!mine.all_active && mine.me_active);
    let other = author_toggle(Some("me@x"), Some("you@x")).unwrap();
    assert!(!other.all_active && !other.me_active);
    assert_eq!(other.title, "author filter — currently you@x");
    assert_eq!(other.me, "me@x");
}

#[test]
fn action_is_summed_up() {
    let mut a = repo("a");
    a.ci_status = Some("failure".into());
    a.untracked_files = 2;
    let mut b = repo("b");
    b.modified_files = 1;
    b.in_progress_op = Some("merge".into());
    b.head_ref = Some("detached".into());
    b.prs_awaiting_my_review = 3;
    let s = action_summary(&vec![a, b, repo("c")]);
    assert_eq!((s.ci_failing, s.dirty, s.in_progress, s.detached, s.reviews), (1, 2, 1, 1, 3));
    assert!(s.has_action());
    assert_eq!(
        s.banner(),
        vec!["1 failing CI", "2 dirty repos", "1 mid-op", "1 detached HEAD", "3 awaiting your review"],
    );
    let none = action_summary(&vec![repo("c")]);
    assert!(!none.has_action());
    assert!(none.banner().is_empty());
}

#[test]
fn plurals_of_the_banner() {
    let mut a = repo("a");
    a.ci_status = Some("failure".into());
    a.head_ref = Some("detached".into());
    let mut b = a.clone();
    b.modified_files = 1;
    assert_eq!(
        action_summary(&vec![a, b]).banner(),
        vec!["2 failing CIs", "1 dirty repo", "2 detached HEADs"],
    );
}

#[test]
fn two_repositories_of_one_name_stay_apart() {
    let now = 1_000_000;
    let commits = vec![
        commit(5, "tool", now - 1, "five"),
        commit(2, "tool", now - 2, "two"),
        commit(5, "tool", now - 3, "five again"),
        commit(9, "app", now - 4, "nine"),
    ];
    let s = standup(&Vec::new(), &commits, &Vec::new(), now);
    let ids: Vec<i64> = s.commits.iter().map(|g| g.repo_id).collect();
    assert_eq!(ids, vec![9, 2, 5]);
    assert_eq!(s.commits[2].subjects, vec!["five", "five again"]);
    assert_eq!(s.commits[1].repo_name, "tool");
}

#[test]
fn the_standup_groups_by_repository() {
    let now = 1_000_000;
    let mut commits = vec![
        commit(7, "zeta", now - 5, "z1"),
        commit(9, "alpha", now - 10, "a1"),
        commit(8, "old", now - 86_401, "gone"),
        commit(9, "alpha", now - 86_400, "a2"),
    ];
    for i in 0..5 {
        commits.push(commit(7, "zeta", now - 20, &format!("z{}", i + 2)));
    }
    let mut sessions = vec![session(None, Some("never")), session(Some(now - 90_000), Some("old"))];
    for i in 0..8 {
        sessions.push(session(Some(now - i), if i == 0 { None } else { Some("s") }));
    }
    let mut dirty = repo("dirty");
    dirty.untracked_files = 1;
    dirty.modified_files = 2;
    let mut broken = repo("broken");
    broken.ci_status = Some("failure".into());
    let s = standup(&vec![dirty, broken], &commits, &sessions, now);
    let names: Vec<&str> = s.commits.iter().map(|g| g.repo_name.as_str()).collect();
    assert_eq!(names, vec!["alpha", "zeta"]);
    assert_eq!(s.commits[0].subjects, vec!["a1", "a2"]);
    assert_eq!((s.commits[0].count, s.commits[0].more), (2, 0));
    assert_eq!(s.commits[1].subjects, vec!["z1", "z2", "z3", "z4"]);
    assert_eq!((s.commits[1].count, s.commits[1].more), (6, 2));
    assert_eq!((s.session_count, s.sessions.len(), s.more_sessions), (8, 6, 2));
    assert_eq!(s.sessions[0], None);
    assert_eq!(s.sessions[1].as_deref(), Some("s"));
    assert_eq!(s.failing, vec!["broken"]);
    assert_eq!(s.dirty, vec![("dirty".to_string(), 3)]);
    assert!(!s.is_empty());
    assert!(standup(&Vec::new(), &Vec::new(), &Vec::new(), now).is_empty());
}

#[test]
fn pills_come_in_order() {
    let mut r = repo("x");
    r.session_count = 2;
    r.commits_30d = 3;
    r.loc_churn_30d = 1_234;
    r.authors_30d = 4;
    r.untracked_files = 5;
    r.modified_files = 6;
    r.in_progress_op = Some("rebase".into());
    r.head_ref = Some("detached".into());
    r.stash_count = 7;
    r.commits_ahead = 8;
    r.commits_behind = 9;
    r.ci_status = Some("failure".into());
    r.remote_url = Some("https://github.com/a/b".into());
    r.default_branch = Some("main".into());
    r.prs_awaiting_my_review = 10;
    r.prs_mine_awaiting_review = 11;
    r.open_prs = 12;
    r.draft_prs = 13;
    r.open_issues = 14;
    let pills = repo_pills(&r);
    let texts: Vec<&str> = pills.iter().map(|p| p.text.as_str()).collect();
    assert_eq!(
        texts,
        vec![
            "2 sessions",
            "3 commits (30d)",
            "1.2k churn (30d)",
            "4 authors (30d)",
            "11 uncommitted",
            "rebase in progress",
            "detached HEAD",
            "7 stashed",
            "↑ 8 unpushed",
            "↓ 9 behind",
            "CI failing",
            "10 awaiting your review",
            "↗ 11 yours open",
            "12 PRs (13 draft)",
            "14 issues",
        ]
    );
    assert_eq!(pills[0].title, None);
    assert_eq!(
        pills[4].title.as_deref(),
        Some("working-tree files right now — 6 modified + 5 untracked"),
    );
    assert_eq!(pills[4].tone, Tone::Alert);
    assert_eq!(
        pills[10].href.as_deref(),
        Some("https://github.com/a/b/actions?query=branch%3Amain"),
    );
    assert!(repo_pills(&repo("quiet")).is_empty());
}

#[test]
fn alerts_tell_of_action() {
    let quiet = repo("q");
    let mut running = repo("r");
    running.ci_status = Some("running".into());
    running.open_prs = 3;
    let mut review = repo("v");
    review.prs_awaiting_my_review = 1;
    let mut op = repo("o");
    op.in_progress_op = Some("merge".into());
    for r in [quiet, running, review, op] {
        let alert = repo_pills(&r).iter().any(|p| p.tone == Tone::Alert);
        let news = is_action_required(&r) || r.prs_awaiting_my_review > 0;
        assert_eq!(alert, news, "{}", r.name);
    }
}

#[test]
fn runs_have_pills() {
    let mut r = repo("x");
    assert!(ci_pill(&r).is_none());
    r.ci_status = Some("success".into());
    assert!(ci_pill(&r).is_none());
    r.ci_status = Some("running".into());
    let p = ci_pill(&r).unwrap();
    assert_eq!((p.tone, p.text.as_str(), p.href), (Tone::Faint, "CI running", None));
    r.ci_status = Some("pending".into());
    r.remote_url = Some("https://h/a".into());
    r.default_branch = Some(String::new());
    assert_eq!(ci_pill(&r).unwrap().href, None);
}

#[test]
fn links_name_the_branch() {
    let mut r = repo("x");
    assert_eq!(remote_link(&r), None);
    r.remote_url = Some("https://github.com/coilysiren/backend".into());
    assert_eq!(
        remote_link(&r),
        Some((
            "https://github.com/coilysiren/backend".to_string(),
            "github.com/coilysiren/backend".to_string(),
        )),
    );
    r.default_branch = Some("main".into());
    assert_eq!(
        remote_link(&r),
        Some((
            "https://github.com/coilysiren/backend/tree/main".to_string(),
            "github.com/coilysiren/backend @ main".to_string(),
        )),
    );
    r.remote_url = Some("http://intra/x".into());
    assert_eq!(remote_link(&r).unwrap().1, "intra/x @ main");
}

#[test]
fn rows_follow_the_list() {
    let mut busy = repo("busy");
    busy.session_count = 1;
    let rows = repo_rows(&vec![busy, repo("idle")], "/p");
    assert_eq!(rows.len(), 2);
    assert_eq!(rows[0].name, "team/busy");
    assert!(!rows[0].dormant);
    assert_eq!(rows[0].pills.len(), 1);
    assert!(rows[1].dormant);
    assert_eq!(rows[1].path, "/p/team/idle");
    assert_eq!(rows[1].link, None);
}

#[test]
fn hashes_are_shortened() {
    let chip = short_sha("0123456789", Some("https://h/a"));
    assert_eq!(chip.short, "0123456");
    assert_eq!(chip.href.as_deref(), Some("https://h/a/commit/0123456789"));
    assert_eq!(short_sha("abc", None).short, "abc");
    assert_eq!(short_sha("abc", Some("")).href, None);
    assert!(has_short_form("01234é7"));
    assert!(!has_short_form("012345éx"));
}

#[test]
fn uncommitted_work_is_listed() {
    let group = UncommittedGroup {
        repo_id: 3,
        repo_name: "r".into(),
        repo_path: "/r".into(),
        repo_remote_url: None,
        total: 5,
        sample: vec![("a".into(), "modified".into()), ("b".into(), "untracked".into())],
    };
    let rows = list_uncommitted(&group);
    assert_eq!(rows.count, "5 files");
    assert_eq!(rows.rows[0].word, "mod");
    assert_eq!(rows.rows[1].word, "new");
    assert!(rows.rows[1].untracked);
    assert_eq!(rows.more.as_deref(), Some("…and 3 more"));
    let mut full = group.clone();
    full.total = 2;
    assert_eq!(list_uncommitted(&full).more, None);
    full.total = 1;
    assert_eq!(list_uncommitted(&full).count, "1 file");
    assert_eq!(uncommitted_heading(&Vec::new()), None);
    assert_eq!(
        uncommitted_heading(&vec![group.clone(), full]).as_deref(),
        Some(" (6 files across 2 repos)"),
    );
    assert_eq!(
        uncommitted_heading(&vec![group]).as_deref(),
        Some(" (5 files across 1 repo)"),
    );
}

#[test]
fn failures_link_to_their_runs() {
    let mut f = CiFailure {
        repo_id: 1,
        repo_name: "r".into(),
        repo_path: "/r".into(),
        remote_url: Some("https://h/a".into()),
        default_branch: None,
    };
    assert_eq!(ci_failure_link(&f), None);
    f.default_branch = Some("dev".into());
    assert_eq!(
        ci_failure_link(&f).as_deref(),
        Some("https://h/a/actions?query=branch%3Adev"),
    );
}

#[test]
fn pages_have_their_words() {
    assert_eq!(PageStatus::of_lookup(&Ok(Some(1))).code(), 200);
    assert_eq!(PageStatus::of_lookup::<i64>(&Ok(None)).code(), 404);
    assert_eq!(PageStatus::of_lookup::<i64>(&Err("x".into())).code(), 500);
    assert_eq!(summary_or_none(&None), "(no summary)");
    assert_eq!(summary_or_none(&Some("s".into())), "s");
    assert_eq!(role_label(TurnRole::User), "user");
    assert_eq!(role_label(TurnRole::Assistant), "assistant");
    assert_eq!(role_label(TurnRole::System), "system");
    assert_eq!(
        token_line(&session(None, None).session),
        "0 in · 1.5k out · 2.0M cache-read · 7 cache-create",
    );
    let h = hotspot_row(&FileHotspot { file_path: "f".into(), churn: 9, commits: 1, authors: 2 });
    assert_eq!((h.churn.as_str(), h.commits.as_str(), h.authors.as_str()), ("9 LOC churn", "1 commit", "2 authors"));
}

#[test]
fn commits_have_chips() {
    let c = commit(1, "r", 0, "s").commit;
    let chips = commit_chips(&vec![c.clone()], Some("https://h/a")).unwrap();
    assert_eq!(chips[0].short, "0123456");
    let mut odd = c;
    odd.sha = "012345éx".into();
    assert!(commit_chips(&vec![odd], None).is_none());
}

#[test]
fn the_banner_is_there_where_action_is() {
    let mut dirty = repo("d");
    dirty.modified_files = 1;
    let mut review = repo("v");
    review.prs_awaiting_my_review = 2;
    for list in [vec![repo("a")], vec![repo("a"), dirty], vec![review], Vec::new()] {
        let any = list.iter().any(|r| is_action_required(r) || r.prs_awaiting_my_review > 0);
        assert_eq!(action_summary(&list).has_action(), any);
    }
}
