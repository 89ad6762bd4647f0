use repo_recall::commits::{FileChange, GhHealth, PrCounts};
use repo_recall::config::{author_setting, read_settings};
use repo_recall::db::{
    cutoff_30d, group_uncommitted, search_phrase, split_by_match, MatchRow, UncommittedRow,
};
use repo_recall::refresh::{
    can_ask_remotes, escape, github_jobs, react, status_fragment, target_query, total_churn,
    FileOutcome, Progress, RefreshEvent, RefreshState, RefreshStats, RefreshTask, RemoteSnapshot,
    SessionPass, SCAN_STATUS,
};

#[test]
fn fragments_replace_the_status_line() {
    assert_eq!(
        status_fragment("a < b & c > d"),
        format!("<div id=\"scan-status\" hx-swap-oob=\"true\" class=\"{SCAN_STATUS}\">a &lt; b &amp; c &gt; d</div>"),
    );
    assert_eq!(escape("&lt;"), "&amp;lt;");
    assert!(!escape("<<>>").contains('<'));
}

#[test]
fn progress_is_told_now_and_then() {
    let mut p = Progress::over_repos(7);
    let mut said = Vec::new();
    for _ in 0..7 {
        if let Some(text) = p.advance() {
            said.push(text);
        }
    }
    assert_eq!(said, vec!["indexing commits + churn… 5/7", "indexing commits + churn… 7/7"]);
    assert_eq!((Progress::over_sessions(1).every, Progress::over_mentions(1).every), (50, 25));
    let mut q = Progress::over_remotes(10);
    for _ in 0..9 {
        assert_eq!(q.advance(), None);
    }
    assert_eq!(q.advance().as_deref(), Some("remote state… 10/10"));
    assert_eq!(Progress::over_mentions(1).advance().as_deref(), Some("scanning sessions for repo mentions… 1/1"));
}

#[test]
fn session_files_are_counted_once() {
    let mut pass = SessionPass::new(4);
    assert_eq!(pass.on_file(FileOutcome::Inserted { linked: true }), None);
    assert_eq!(pass.on_file(FileOutcome::Rejected), None);
    assert_eq!(pass.on_file(FileOutcome::Inserted { linked: false }), None);
    assert_eq!(pass.on_file(FileOutcome::Duplicate).as_deref(), Some("indexing sessions… 4/4"));
    assert_eq!((pass.inserted, pass.skipped, pass.links), (2, 2, 1));
    assert_eq!(pass.progress.done, 4);

    let mut last = SessionPass::new(1);
    assert_eq!(last.on_file(FileOutcome::Rejected).as_deref(), Some("indexing sessions… 1/1"));
    let stats = RefreshStats::with_sessions(3, 9, &pass);
    assert_eq!(stats, RefreshStats { repos: 3, sessions: 2, links: 1, commits: 9, skipped: 2 });
    assert_eq!(
        RefreshStats::without_sessions(3, 9),
        RefreshStats { repos: 3, sessions: 0, links: 0, commits: 9, skipped: 0 },
    );
}

#[test]
fn refreshes_say_what_they_did() {
    let stats = RefreshStats { repos: 1, sessions: 2, links: 3, commits: 4, skipped: 5 };
    assert_eq!(
        stats.offline_message(),
        "done — 1 repos, 2 sessions, 3 links, 4 commits (5 skipped). checking CI…",
    );
    assert_eq!(
        stats.final_message(6, 7),
        "done — 1 repos, 2 sessions, 3 links, 4 commits, 6 remote, 7 content-matches (5 skipped)",
    );
}

#[test]
fn refreshes_go_through_their_passes() {
    let stats = RefreshStats { repos: 1, sessions: 2, links: 3, commits: 4, skipped: 5 };
    let r = react(RefreshState::Asked, RefreshEvent::Begin { busy: false });
    assert_eq!((r.state, r.task), (RefreshState::Offline, RefreshTask::RunOffline));
    assert_eq!(r.message.as_deref(), Some("starting refresh…"));
    let r = react(r.state, RefreshEvent::OfflineDone { result: Ok(stats) });
    assert_eq!((r.state, r.task), (RefreshState::Remotes { stats }, RefreshTask::AskRemotes));
    assert_eq!(r.message, Some(stats.offline_message()));
    let r = react(r.state, RefreshEvent::RemotesDone { updated: 6 });
    assert_eq!((r.state, r.task), (RefreshState::Mentions { stats, remote: 6 }, RefreshTask::ScanMentions));
    assert_eq!(r.message, None);
    let r = react(r.state, RefreshEvent::MentionsDone { linked: 7 });
    assert_eq!((r.state, r.task), (RefreshState::Over, RefreshTask::Reload));
    assert_eq!(r.message, Some(stats.final_message(6, 7)));
}

#[test]
fn refreshes_are_refused_or_fail() {
    let r = react(RefreshState::Asked, RefreshEvent::Begin { busy: true });
    assert_eq!((r.state, r.task), (RefreshState::Over, RefreshTask::Stop));
    assert_eq!(r.message.as_deref(), Some("refresh already in progress…"));
    let r = react(
        RefreshState::Offline,
        RefreshEvent::OfflineDone { result: Err("no such table".into()) },
    );
    assert_eq!((r.state, r.task), (RefreshState::Over, RefreshTask::Stop));
    assert_eq!(r.message.as_deref(), Some("error: no such table"));
    let r = react(RefreshState::Over, RefreshEvent::RemotesDone { updated: 1 });
    assert_eq!((r.state, r.task, r.message), (RefreshState::Over, RefreshTask::Stop, None));
}

fn change(additions: i64, deletions: i64) -> FileChange {
    FileChange {
        sha: String::new(),
        author_email: String::new(),
        timestamp: 0,
        file_path: String::new(),
        additions,
        deletions,
    }
}

#[test]
fn churn_is_summed() {
    assert_eq!(total_churn(&vec![change(1, 2), change(30, 0)]), Some(33));
    assert_eq!(total_churn(&Vec::new()), Some(0));
    assert_eq!(total_churn(&vec![change(i64::MAX, 1)]), None);
    assert_eq!(total_churn(&vec![change(i64::MAX, 0), change(1, 0)]), None);
}

#[test]
fn remotes_are_asked_within_the_limit() {
    assert!(can_ask_remotes(GhHealth::Ready));
    assert!(!can_ask_remotes(GhHealth::NotAuthenticated));
    assert!(!can_ask_remotes(GhHealth::Missing));
    assert!(!target_query(0).contains("LIMIT"));
    assert!(target_query(25).ends_with(" LIMIT 25"));
    let jobs = github_jobs(vec![
        (1, "https://github.com/a/b".into(), "main".into()),
        (2, "https://gitlab.com/a/b".into(), "main".into()),
        (3, "https://github.com/c/d/".into(), "dev".into()),
    ]);
    assert_eq!(
        jobs,
        vec![(1, "a/b".to_string(), "main".to_string()), (3, "c/d".to_string(), "dev".to_string())],
    );
}

#[test]
fn answers_are_kept_or_zero() {
    let counts = PrCounts { open: 4, draft: 1, awaiting_my_review: 2, mine_awaiting_review: 3 };
    let full = RemoteSnapshot::of_answers(7, Some("failure".into()), Some((counts, 12)));
    assert_eq!((full.id, full.ci.as_deref(), full.issues), (7, Some("failure"), Some(12)));
    assert_eq!(full.pr_counts().mine_awaiting_review, 3);
    let empty = RemoteSnapshot::of_answers(8, None, None);
    assert_eq!(empty.issues, None);
    assert_eq!(empty.pr_counts().open, 0);
}

#[test]
fn settings_have_defaults() {
    let s = read_settings(None, None, None, None, None);
    assert_eq!(
        (s.scan_depth, s.commits_per_repo, s.refresh_interval_secs, s.remote_target_limit, s.port),
        (4, 500, 150, 25, 7777),
    );
    let t = read_settings(Some("2"), Some("x"), Some("0"), Some("+3"), Some("65536"));
    assert_eq!(
        (t.scan_depth, t.commits_per_repo, t.refresh_interval_secs, t.remote_target_limit, t.port),
        (2, 500, 0, 3, 7777),
    );
    assert_eq!(read_settings(None, None, None, None, Some("8080")).port, 8080);
    assert_eq!(read_settings(Some("-1"), None, None, None, None).scan_depth, 4);
}

#[test]
fn authors_are_named_or_asked_for() {
    assert_eq!(author_setting(Some("me@x")).as_deref(), Some("me@x"));
    assert_eq!(author_setting(Some("")), None);
    assert_eq!(author_setting(Some("all")), None);
    assert_eq!(author_setting(None), None);
}

fn row(id: i64, file: &str) -> UncommittedRow {
    UncommittedRow {
        repo_id: id,
        repo_name: format!("r{id}"),
        repo_path: format!("/r{id}"),
        repo_remote_url: None,
        total: 10 * id,
        file_path: file.to_string(),
        kind: "modified".to_string(),
    }
}

#[test]
fn uncommitted_files_are_grouped() {
    let rows = || vec![row(1, "a"), row(1, "b"), row(1, "c"), row(2, "d"), row(3, "e"), row(1, "f")];
    let groups = group_uncommitted(rows(), 6, 2);
    assert_eq!(groups.iter().map(|g| g.repo_id).collect::<Vec<_>>(), vec![1, 2, 3]);
    assert_eq!(groups[0].sample.len(), 2);
    assert_eq!(groups[0].total, 10);
    assert_eq!(groups[1].repo_name, "r2");
    let all = group_uncommitted(rows(), 6, 9);
    let first: Vec<&str> = all[0].sample.iter().map(|f| f.0.as_str()).collect();
    assert_eq!(first, vec!["a", "b", "c", "f"]);
    assert_eq!(all[2].sample, vec![("e".to_string(), "modified".to_string())]);
    assert_eq!(group_uncommitted(rows(), 1, 9)[0].sample.len(), 4);
    assert_eq!(group_uncommitted(rows(), 2, 2).len(), 2);
    assert_eq!(group_uncommitted(rows(), 0, 2).len(), 0);
    assert_eq!(group_uncommitted(rows(), -1, 2).len(), 0);
    assert!(group_uncommitted(rows(), 9, 0)[0].sample.is_empty());
    assert!(group_uncommitted(Vec::new(), 3, 3).is_empty());
}

#[test]
fn the_greatest_totals_come_first() {
    let rows = vec![row(3, "a"), row(2, "b"), row(2, "c"), row(1, "d")];
    let groups = group_uncommitted(rows, 2, 1);
    assert_eq!(groups.iter().map(|g| g.total).collect::<Vec<_>>(), vec![30, 20]);
}

#[test]
fn matches_are_parted() {
    let link = |id: i64, how: &str| MatchRow {
        repo_id: id,
        repo_name: format!("r{id}"),
        repo_path: format!("/r{id}"),
        match_type: how.to_string(),
    };
    let (cwd, content) = split_by_match(vec![link(1, "content_mention"), link(2, "cwd"), link(3, "other"), link(4, "content_mention")]);
    assert_eq!(cwd.iter().map(|l| l.0).collect::<Vec<_>>(), vec![2, 3]);
    assert_eq!(content.iter().map(|l| l.0).collect::<Vec<_>>(), vec![1, 4]);
    assert_eq!(content[1], (4, "r4".to_string(), "/r4".to_string()));
}

#[test]
fn queries_are_phrases() {
    assert_eq!(search_phrase("two words"), "\"two words\"");
    assert_eq!(search_phrase("say \"hi\""), "\"say \"\"hi\"\"\"");
    assert_eq!(search_phrase(""), "\"\"");
}

#[test]
fn the_window_is_thirty_days() {
    assert_eq!(cutoff_30d(2_592_000), 0);
    assert_eq!(cutoff_30d(0), -2_592_000);
}
