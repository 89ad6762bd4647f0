use repo_recall::commits::{
    churn_args, churn_output, ci_status_output, command_text, default_branch_output,
    file_changes_output, gh_health_of, github_owner_repo, in_progress_op, latest_outcome,
    local_state_of, log_args, normalize_remote_url, numstat_args, op_markers, origin_output,
    pr_and_issue_counts, pr_and_issue_output, pr_args, printed_answer, read_churn, read_log,
    read_numstat, read_status, run_list_args, run_outcome, scan_output, worktree_output, FileKind,
    GhHealth, WorktreeSnapshot, PR_QUERY,
};
use repo_recall::json::parse_json;

#[test]
fn normalizes_ssh_shorthand() {
    assert_eq!(
        normalize_remote_url("git@github.com:coilysiren/repo-recall.git").as_deref(),
        Some("https://github.com/coilysiren/repo-recall"),
    );
}

#[test]
fn normalizes_https() {
    assert_eq!(
        normalize_remote_url("https://gitlab.com/org/proj.git/").as_deref(),
        Some("https://gitlab.com/org/proj"),
    );
}

#[test]
fn rejects_garbage() {
    assert!(normalize_remote_url("not-a-url").is_none());
    assert!(normalize_remote_url("").is_none());
}

#[test]
fn extracts_github_owner_repo() {
    assert_eq!(
        github_owner_repo("https://github.com/coilysiren/repo-recall").as_deref(),
        Some("coilysiren/repo-recall"),
    );
    assert_eq!(
        github_owner_repo("https://github.com/coilysiren/repo-recall/").as_deref(),
        Some("coilysiren/repo-recall"),
    );
    assert!(github_owner_repo("https://gitlab.com/a/b").is_none());
    assert!(github_owner_repo("https://github.com/only-one").is_none());
    assert!(github_owner_repo("https://github.com/a/b/tree/main").is_none());
}

#[test]
fn owner_and_name_must_both_be_there() {
    assert!(github_owner_repo("https://github.com//b").is_none());
    assert!(github_owner_repo("https://github.com/a//").is_none());
    assert_eq!(github_owner_repo("https://github.com/a/b///").as_deref(), Some("a/b"));
}

#[test]
fn normalizes_ssh_urls_with_user_and_port() {
    assert_eq!(
        normalize_remote_url("ssh://git@host.example:2222/team/tool.git\n").as_deref(),
        Some("https://host.example/team/tool"),
    );
    assert_eq!(
        normalize_remote_url("ssh://host.example/tool").as_deref(),
        Some("https://host.example/tool"),
    );
    assert!(normalize_remote_url("ssh://host.example").is_none());
    assert!(normalize_remote_url("git@host.example").is_none());
    assert_eq!(
        normalize_remote_url("http://intra/x.git").as_deref(),
        Some("https://intra/x"),
    );
}

#[test]
fn an_at_sign_in_the_path_does_not_replace_the_host() {
    assert_eq!(
        normalize_remote_url("ssh://h.example/a@b/r").as_deref(),
        Some("https://h.example/a@b/r"),
    );
    assert_eq!(
        normalize_remote_url("ssh://me@h.example:22/a@b/r.git").as_deref(),
        Some("https://h.example/a@b/r"),
    );
    assert_eq!(
        normalize_remote_url("http://h.example/o/r.git").as_deref(),
        Some("https://h.example/o/r"),
    );
}

#[test]
fn a_base_ends_neither_in_a_slash_nor_in_git() {
    for raw in [
        "https://h/a/.git",
        "https://h/a.git.git",
        "https://h/a.git//",
        "git@h:a/b.git/",
        "https://h/a/.git/.git///",
    ] {
        let base = normalize_remote_url(raw).unwrap();
        assert!(!base.ends_with('/'), "{raw} gave {base}");
        assert!(!base.ends_with(".git"), "{raw} gave {base}");
    }
}

#[test]
fn log_lines_are_read() {
    let text = "abc\0100\0Ann\0ann@x\0Fix a\tthing | here\nnot a commit\n\ndef\0-5\0Bob\0bob@x\0two\0parts\nghi\0soon\0C\0c@x\0s\n";
    let commits = read_log(text);
    assert_eq!(commits.len(), 2);
    assert_eq!(commits[0].sha, "abc");
    assert_eq!(commits[0].timestamp, 100);
    assert_eq!(commits[0].author_name, "Ann");
    assert_eq!(commits[0].author_email, "ann@x");
    assert_eq!(commits[0].subject, "Fix a\tthing | here");
    assert_eq!(commits[1].timestamp, -5);
    assert_eq!(commits[1].subject, "two\0parts");
    assert!(read_log("").is_empty());
}

#[test]
fn log_output_is_read_from_bytes() {
    let commits = scan_output(b"abc\x00100\x00A\xffnn\x00ann@x\x00caf\xc3\xa9\r\n");
    assert_eq!(commits.len(), 1);
    assert_eq!(commits[0].author_name, "A\u{fffd}nn");
    assert_eq!(commits[0].subject, "café");
}

#[test]
fn log_is_asked_for_without_merges() {
    assert_eq!(
        log_args("/r", 500),
        vec![
            "-C",
            "/r",
            "log",
            "--all",
            "--no-merges",
            "-n",
            "500",
            "--format=%H%x00%at%x00%an%x00%ae%x00%s",
        ]
    );
    assert_eq!(log_args("/r", 0)[6], "0");
}

#[test]
fn changes_are_asked_for_since_a_time() {
    assert_eq!(
        numstat_args("/r", 1700000000),
        vec![
            "-C",
            "/r",
            "log",
            "--since=@1700000000",
            "--no-merges",
            "--pretty=format:H|%H|%at|%ae",
            "--numstat",
        ]
    );
    assert_eq!(churn_args("/r", -3)[3], "--since=@-3");
    assert_eq!(churn_args("/r", -3)[5], "--pretty=format:");
}

#[test]
fn changes_belong_to_the_header_before_them() {
    let text = "1\t1\torphan\nH|aaa|10|a@x\n3\t4\tsrc/lib.rs\n-\t-\tlogo.png\n\nH|bbb|soon|b@x|odd\n5\t0\tdir/{a => b}.rs\nH|ccc\n2\t2\tx\ty\n";
    let changes = read_numstat(text);
    assert_eq!(changes.len(), 4);
    assert_eq!((changes[0].sha.as_str(), changes[0].timestamp), ("", 0));
    assert_eq!(changes[1].sha, "aaa");
    assert_eq!(changes[1].timestamp, 10);
    assert_eq!(changes[1].author_email, "a@x");
    assert_eq!(changes[1].file_path, "src/lib.rs");
    assert_eq!((changes[1].additions, changes[1].deletions), (3, 4));
    assert_eq!(changes[2].timestamp, 0);
    assert_eq!(changes[2].author_email, "b@x|odd");
    assert_eq!(changes[2].file_path, "dir/{a => b}.rs");
    assert_eq!(changes[3].author_email, "");
    assert_eq!(changes[3].file_path, "x\ty");
    assert_eq!(file_changes_output(text.as_bytes()).len(), 4);
}

#[test]
fn churn_adds_up() {
    assert_eq!(read_churn("3\t4\ta\n\n-\t-\tb\n10\t0\tc\n"), 17);
    assert_eq!(churn_output(Some(b"3\t4\ta\n")), Some(7));
    assert_eq!(churn_output(Some(b"")), Some(0));
    assert_eq!(churn_output(None), Some(0));
    assert_eq!(churn_output(Some(b"9223372036854775807\t1\ta\n")), None);
    assert_eq!(churn_output(Some(b"9223372036854775807\t0\ta\n1\t0\tb\n")), None);
}

#[test]
fn churn_is_what_the_changes_add_up_to() {
    let listed = "H|a|1|x@x\n3\t4\ta\n-\t-\tb\n\nH|b|2|y@y\n10\t0\tc d\te\n";
    let counted = "3\t4\ta\n-\t-\tb\n\n10\t0\tc d\te\n";
    let sum: i64 = read_numstat(listed).iter().map(|c| c.additions + c.deletions).sum();
    assert_eq!(sum, 17);
    assert_eq!(read_churn(counted), sum);
}

#[test]
fn remotes_are_read_strictly() {
    assert_eq!(
        origin_output(b"git@github.com:a/b.git\n").as_deref(),
        Some("https://github.com/a/b"),
    );
    assert_eq!(origin_output(b"\n"), None);
    assert_eq!(origin_output(b"https://h/\xff\n"), None);
    assert_eq!(
        default_branch_output(b"refs/remotes/origin/feature/x\n").as_deref(),
        Some("feature/x"),
    );
    assert_eq!(default_branch_output(b"refs/heads/main\n"), None);
    assert_eq!(default_branch_output(b"refs/remotes/origin/\xff"), None);
}

#[test]
fn local_state_is_put_together() {
    let s = local_state_of(
        Some("main".into()),
        None,
        Some("2\t5".into()),
        Some("stash@{0}: x\n\nstash@{1}: y".into()),
        Some("rebase".into()),
    );
    assert_eq!(s.head_ref.as_deref(), Some("main"));
    assert_eq!((s.commits_behind, s.commits_ahead), (2, 5));
    assert_eq!(s.stash_count, 2);
    assert_eq!(s.in_progress_op.as_deref(), Some("rebase"));

    let detached = local_state_of(None, Some("abc".into()), Some("x 1".into()), None, None);
    assert_eq!(detached.head_ref.as_deref(), Some("detached"));
    assert_eq!((detached.commits_behind, detached.commits_ahead), (0, 0));
    assert_eq!(detached.stash_count, 0);

    let unborn = local_state_of(None, None, Some("7".into()), Some(String::new()), None);
    assert_eq!(unborn.head_ref, None);
    assert_eq!(unborn.commits_behind, 0);
}

#[test]
fn operations_are_told_by_their_markers() {
    let markers = op_markers();
    assert_eq!(markers.len(), 6);
    assert_eq!(markers[1], ("rebase", "rebase-apply"));
    assert_eq!(markers[5], ("bisect", "BISECT_LOG"));
    assert_eq!(in_progress_op(&vec![false; 6]), None);
    assert_eq!(in_progress_op(&Vec::new()), None);
    assert_eq!(
        in_progress_op(&vec![false, false, true, true, false, false]).as_deref(),
        Some("merge"),
    );
    assert_eq!(
        in_progress_op(&vec![false, false, false, false, true, true]).as_deref(),
        Some("revert"),
    );
}

#[test]
fn status_lines_are_read() {
    let text = " M src/lib.rs\n?? notes.txt\nR  old name.rs -> new name.rs\nab\n?? a -> b -> c\nMM  spaced \n";
    let snap = read_status(text, 3);
    assert_eq!(snap.total_untracked, 2);
    assert_eq!(snap.total_modified, 3);
    assert_eq!(snap.total(), 5);
    let files: Vec<(&str, FileKind)> = snap
        .files
        .iter()
        .map(|f| (f.path.as_str(), f.kind))
        .collect();
    assert_eq!(
        files,
        vec![
            ("src/lib.rs", FileKind::Modified),
            ("notes.txt", FileKind::Untracked),
            ("new name.rs", FileKind::Modified),
        ]
    );
    let all = read_status(text, 100);
    assert_eq!(all.files[3].path, "a -> b -> c");
    assert_eq!(all.files[4].path, "spaced");
    assert_eq!(read_status("R  a -> b -> c\n", 1).files[0].path, "c");
    assert_eq!(read_status(" C a -> b\n", 1).files[0].path, "b");
}

#[test]
fn status_output_is_cut_by_bytes() {
    let snap: WorktreeSnapshot = worktree_output(b"?? caf\xc3\xa9\n", 5).unwrap();
    assert_eq!(snap.files[0].path, "café");
    assert_eq!(worktree_output("é xyz".as_bytes(), 5).unwrap().files[0].path, "xyz");
    assert!(worktree_output("日本 x".as_bytes(), 5).is_some());
    assert!(worktree_output("a日本 x".as_bytes(), 5).is_none());
    assert!(worktree_output("aé".as_bytes(), 5).unwrap().files.is_empty());
}

#[test]
fn kinds_have_their_words() {
    assert_eq!(FileKind::Untracked.as_str(), "untracked");
    assert_eq!(FileKind::Modified.as_str(), "modified");
}

#[test]
fn gh_is_well_only_when_both_probes_succeed() {
    assert_eq!(gh_health_of(Some(true), Some(true)), GhHealth::Ready);
    assert_eq!(gh_health_of(Some(true), Some(false)), GhHealth::NotAuthenticated);
    assert_eq!(gh_health_of(Some(true), None), GhHealth::Missing);
    assert_eq!(gh_health_of(Some(false), Some(true)), GhHealth::Missing);
    assert_eq!(gh_health_of(None, Some(true)), GhHealth::Missing);
}

#[test]
fn answers_are_trimmed() {
    assert_eq!(printed_answer(b" octocat \n").as_deref(), Some("octocat"));
    assert_eq!(printed_answer(b" \n\t"), None);
    assert_eq!(command_text(b"\xe2\x80\x83main\xff \n"), "main\u{fffd}");
}

#[test]
fn runs_have_outcomes() {
    assert_eq!(run_outcome("completed", "success"), Some("success"));
    for c in ["failure", "startup_failure", "timed_out"] {
        assert_eq!(run_outcome("completed", c), Some("failure"));
    }
    for c in ["cancelled", "skipped", "neutral", ""] {
        assert_eq!(run_outcome("completed", c), Some("success"));
    }
    assert_eq!(run_outcome("in_progress", "failure"), Some("running"));
    for s in ["queued", "pending", "requested", "waiting"] {
        assert_eq!(run_outcome(s, ""), Some("pending"));
    }
    assert_eq!(run_outcome("", ""), None);
    assert_eq!(run_outcome("Completed", "success"), None);
}

#[test]
fn the_latest_run_decides() {
    let out = ci_status_output(
        b" [{\"status\":\"completed\",\"conclusion\":\"timed_out\"},{\"status\":\"queued\"}]\n",
    );
    assert_eq!(out.as_deref(), Some("failure"));
    assert_eq!(ci_status_output(b"[]"), None);
    assert_eq!(ci_status_output(b"{\"status\":\"completed\"}"), None);
    assert_eq!(ci_status_output(b"oops"), None);
    assert_eq!(ci_status_output(b"[{\"conclusion\":\"success\"}]"), None);
    assert_eq!(ci_status_output(b"[{\"status\":\"completed\",\"conclusion\":null}]").as_deref(), Some("success"));
    let doc = parse_json("[{\"status\":\"queued\"}]").unwrap();
    assert_eq!(latest_outcome(&doc).as_deref(), Some("pending"));
    assert_eq!(
        run_list_args("a/b", "main"),
        vec![
            "run", "list", "--json", "status,conclusion", "-L", "1", "--branch", "main", "-R",
            "a/b",
        ]
    );
}

const ANSWER: &str = r#"{"data":{"repository":{
    "issues":{"totalCount":12},
    "pullRequests":{"nodes":[
        {"isDraft":false,"author":{"login":"me"},"reviewRequests":{"nodes":[]}},
        {"isDraft":true,"author":{"login":"me"},"reviewRequests":{"nodes":[{"requestedReviewer":{"login":"me"}}]}},
        {"isDraft":false,"author":null,"reviewRequests":{"nodes":[{"requestedReviewer":{}},{"requestedReviewer":{"login":"you"}},{"requestedReviewer":{"login":"me"}}]}},
        {"isDraft":false,"author":{"login":"you"}}
    ]}}}}"#;

#[test]
fn pull_requests_are_counted() {
    let (counts, issues) = pr_and_issue_output(ANSWER.as_bytes(), "me").unwrap();
    assert_eq!(counts.open, 4);
    assert_eq!(counts.draft, 1);
    assert_eq!(counts.awaiting_my_review, 2);
    assert_eq!(counts.mine_awaiting_review, 1);
    assert_eq!(issues, 12);
    let body = parse_json(ANSWER).unwrap();
    let (same, _) = pr_and_issue_counts(&body, "you").unwrap();
    assert_eq!((same.awaiting_my_review, same.mine_awaiting_review), (1, 1));
    assert!(counts.draft + counts.mine_awaiting_review <= counts.open);
}

#[test]
fn nobody_awaits_without_a_login() {
    let answer = r#"{"data":{"repository":{"pullRequests":{"nodes":[{"author":{"login":""},"reviewRequests":{"nodes":[{"requestedReviewer":{"login":""}}]}}]}}}}"#;
    let (counts, issues) = pr_and_issue_output(answer.as_bytes(), "").unwrap();
    assert_eq!(counts.open, 1);
    assert_eq!((counts.awaiting_my_review, counts.mine_awaiting_review), (0, 0));
    assert_eq!(issues, 0);
}

#[test]
fn answers_without_a_repository_are_none() {
    assert!(pr_and_issue_output(b"{\"data\":{}}", "me").is_none());
    assert!(pr_and_issue_output(b"{\"errors\":[]}", "me").is_none());
    assert!(pr_and_issue_output(b"not json", "me").is_none());
    let (counts, _) = pr_and_issue_output(b"{\"data\":{\"repository\":null}}", "me").unwrap();
    assert_eq!(counts.open, 0);
}

#[test]
fn pull_requests_are_asked_for_by_owner_and_name() {
    let args = pr_args("a/b/c").unwrap();
    assert_eq!(args[..3], ["api", "graphql", "-f"]);
    assert_eq!(args[3], format!("query={PR_QUERY}"));
    assert_eq!(args[4..], ["-F", "owner=a", "-F", "name=b/c"]);
    assert!(PR_QUERY.contains("pullRequests(first: 100, states: OPEN)"));
    assert!(pr_args("alone").is_none());
}

#[test]
fn samples_stay_within_totals() {
    let text = "?? a\n?? b\n M c\n";
    for cap in 0..5 {
        let snap = read_status(text, cap);
        assert_eq!(snap.files.len(), cap.min(3));
        assert_eq!(snap.total(), 3);
    }
}
