//! A refresh: how its passes count, what they say on the way, and what they hand on.

use crate::commits::{
    churn_sum, github_owner_repo, law_owner_and_name_are_found, owner_repo, FileChange, GhHealth,
    PrCounts,
};
use crate::seqs::{count_of, gather, group_list_steps, law_counting_is_filtering};
use crate::text::{chars_of, decimal, has_prefix, in_i64, opt_text, push_decimal};
use vstd::prelude::*;
use vstd::string::StringExecFns;

verus! {

broadcast use group_list_steps;

// ---------------------------------------------------------------------------
// Status messages
// ---------------------------------------------------------------------------

/// The classes of the status line.
pub const SCAN_STATUS: &'static str =
    "px-3 py-2 bg-[#c9dcd5] border border-[#9e9fc2]/50 rounded text-[#574f7d] text-xs mb-4";

/// A character as text of a page: the three that would be read as markup are spelled
/// as entities.
pub open spec fn entity(c: char) -> Seq<char> {
    if c == '&' {
        "&amp;"@
    } else if c == '<' {
        "&lt;"@
    } else if c == '>' {
        "&gt;"@
    } else {
        seq![c]
    }
}

/// A text as text of a page.
pub open spec fn escaped(s: Seq<char>) -> Seq<char>
    decreases s.len(),
{
    if s.len() == 0 {
        Seq::empty()
    } else {
        escaped(s.drop_last()) + entity(s.last())
    }
}

/// A text as text of a page.
pub fn escape(s: &str) -> (out: String)
    ensures
        out@ == escaped(s@),
{
    let chars = chars_of(s);
    let mut out = String::new();
    let mut i: usize = 0;
    assert(out@ =~= escaped(s@.take(0)));
    while i < chars.len()
        invariant
            chars@ == s@,
            i <= chars@.len(),
            out@ == escaped(s@.take(i as int)),
        decreases chars@.len() - i,
    {
        let c: char = chars[i];
        let ghost before = out@;
        if c == '&' {
            out.append("&amp;");
        } else if c == '<' {
            out.append("&lt;");
        } else if c == '>' {
            out.append("&gt;");
        } else {
            out.push(c);
            assert(out@ =~= before + seq![c]);
        }
        assert(s@.take(i + 1).drop_last() =~= s@.take(i as int));
        i = i + 1;
    }
    assert(s@.take(i as int) =~= s@);
    out
}

/// The fragment that puts a message into the status line of an open page.
pub open spec fn fragment(text: Seq<char>) -> Seq<char> {
    "<div id=\"scan-status\" hx-swap-oob=\"true\" class=\""@ + SCAN_STATUS@ + "\">"@ + escaped(text)
        + "</div>"@
}

/// The fragment that puts a message into the status line of an open page.
pub fn status_fragment(text: &str) -> (out: String)
    ensures
        out@ == fragment(text@),
{
    let mut out = "<div id=\"scan-status\" hx-swap-oob=\"true\" class=\"".to_owned();
    out.append(SCAN_STATUS);
    out.append("\">");
    out.append(escape(text).as_str());
    out.append("</div>");
    out
}

/// No message brings markup of its own into the status line.
pub proof fn law_messages_bring_no_markup(s: Seq<char>)
    ensures
        !escaped(s).contains('<'),
        !escaped(s).contains('>'),
    decreases s.len(),
{
    reveal_strlit("&amp;");
    reveal_strlit("&lt;");
    reveal_strlit("&gt;");
    if s.len() > 0 {
        let front = escaped(s.drop_last());
        let tail = entity(s.last());
        law_messages_bring_no_markup(s.drop_last());
        let all = front + tail;
        assert forall|i: int| 0 <= i < all.len() implies all[i] != '<' && all[i] != '>' by {
            if i < front.len() {
                assert(front.contains(front[i]));
            } else {
                assert(all[i] == tail[i - front.len()]);
            }
        }
    }
}

// ---------------------------------------------------------------------------
// Progress
// ---------------------------------------------------------------------------

/// How far a pass is.
pub struct Progress {
    /// What the pass does.
    pub what: String,
    /// After how many items it says how far it is.
    pub every: usize,
    /// How many items there are.
    pub total: usize,
    /// How many of them are done.
    pub done: usize,
}

/// Whether a pass says how far it is: after every so many items, and after the last.
pub open spec fn due(done: nat, every: nat, total: nat) -> bool {
    done % every == 0 || done == total
}

/// What a pass says.
pub open spec fn progress_text(what: Seq<char>, done: nat, total: nat) -> Seq<char> {
    what + " "@ + decimal(done) + "/"@ + decimal(total)
}

impl Progress {
    /// Whether there is an item left to do.
    pub open spec fn wf(&self) -> bool {
        self.every > 0 && self.done <= self.total
    }

    /// The pass over session files.
    pub fn over_sessions(total: usize) -> (out: Progress)
        ensures
            out.wf(),
            out.what@ == "indexing sessions…"@,
            out.every == 50,
            out.total == total,
            out.done == 0,
    {
        Progress { what: "indexing sessions…".to_owned(), every: 50, total, done: 0 }
    }

    /// The pass over the sessions' text.
    pub fn over_mentions(total: usize) -> (out: Progress)
        ensures
            out.wf(),
            out.what@ == "scanning sessions for repo mentions…"@,
            out.every == 25,
            out.total == total,
            out.done == 0,
    {
        Progress {
            what: "scanning sessions for repo mentions…".to_owned(),
            every: 25,
            total,
            done: 0,
        }
    }

    /// The pass over the remotes.
    pub fn over_remotes(total: usize) -> (out: Progress)
        ensures
            out.wf(),
            out.what@ == "remote state…"@,
            out.every == 10,
            out.total == total,
            out.done == 0,
    {
        Progress { what: "remote state…".to_owned(), every: 10, total, done: 0 }
    }

    /// The pass over the repositories.
    pub fn over_repos(total: usize) -> (out: Progress)
        ensures
            out.wf(),
            out.what@ == "indexing commits + churn…"@,
            out.every == 5,
            out.total == total,
            out.done == 0,
    {
        Progress { what: "indexing commits + churn…".to_owned(), every: 5, total, done: 0 }
    }

    /// One more item is done; what there is to say of that.
    pub fn advance(&mut self) -> (out: Option<String>)
        requires
            old(self).wf(),
            old(self).done < old(self).total,
        ensures
            final(self).wf(),
            final(self).what == old(self).what,
            final(self).every == old(self).every,
            final(self).total == old(self).total,
            final(self).done == old(self).done + 1,
            opt_text(out) == (if due(
                final(self).done as nat,
                final(self).every as nat,
                final(self).total as nat,
            ) {
                Some(
                    progress_text(
                        final(self).what@,
                        final(self).done as nat,
                        final(self).total as nat,
                    ),
                )
            } else {
                None
            }),
    {
        self.done = self.done + 1;
        if self.done % self.every == 0 || self.done == self.total {
            let mut text = self.what.clone();
            text.append(" ");
            push_decimal(&mut text, self.done as u64);
            text.append("/");
            push_decimal(&mut text, self.total as u64);
            Some(text)
        } else {
            None
        }
    }
}

/// A pass says how far it is when its last item is done.
pub proof fn law_the_end_is_announced(every: nat, total: nat)
    requires
        every > 0,
    ensures
        due(total, every, total),
{
}

// ---------------------------------------------------------------------------
// The pass over session files
// ---------------------------------------------------------------------------

/// What became of a session file.
#[derive(Debug, Clone, Copy, PartialEq, Eq, Structural)]
pub enum FileOutcome {
    /// It could not be read, or is no session.
    Rejected,
    /// Its session is known from another file.
    Duplicate,
    /// Its session is new; whether its working directory belongs to a repository.
    Inserted { linked: bool },
}

/// The counts of the pass over session files.
pub struct SessionPass {
    pub inserted: usize,
    pub skipped: usize,
    pub links: usize,
    pub progress: Progress,
}

/// The counts of a list of outcomes.
pub open spec fn inserted_of(outcomes: Seq<FileOutcome>) -> nat {
    count_of(outcomes, |o: FileOutcome| o is Inserted)
}

/// How many sessions of a list of outcomes were linked.
pub open spec fn linked_of(outcomes: Seq<FileOutcome>) -> nat {
    count_of(outcomes, |o: FileOutcome| o == FileOutcome::Inserted { linked: true })
}

/// How many files of a list of outcomes were skipped.
pub open spec fn skipped_of(outcomes: Seq<FileOutcome>) -> nat {
    count_of(outcomes, |o: FileOutcome| !(o is Inserted))
}

impl SessionPass {
    /// Whether every file that is done is counted once.
    pub open spec fn wf(&self) -> bool {
        &&& self.progress.wf()
        &&& self.inserted + self.skipped == self.progress.done
        &&& self.links <= self.inserted
    }

    /// Whether the counts are those of a list of outcomes.
    pub open spec fn counts(&self, outcomes: Seq<FileOutcome>) -> bool {
        &&& self.inserted == inserted_of(outcomes)
        &&& self.skipped == skipped_of(outcomes)
        &&& self.links == linked_of(outcomes)
        &&& self.progress.done == outcomes.len()
    }

    /// The start of a pass.
    pub fn new(total: usize) -> (out: SessionPass)
        ensures
            out.wf(),
            out.counts(Seq::empty()),
            out.progress.what@ == "indexing sessions…"@,
            out.progress.every == 50,
            out.progress.total == total,
    {
        SessionPass { inserted: 0, skipped: 0, links: 0, progress: Progress::over_sessions(total) }
    }

    /// Counts one more file, and tells what there is to say of the progress.
    pub fn on_file(&mut self, outcome: FileOutcome) -> (out: Option<String>)
        requires
            old(self).wf(),
            old(self).progress.done < old(self).progress.total,
        ensures
            final(self).wf(),
            final(self).progress.what == old(self).progress.what,
            final(self).progress.every == old(self).progress.every,
            final(self).progress.total == old(self).progress.total,
            forall|before: Seq<FileOutcome>|
                old(self).counts(before) ==> #[trigger] final(self).counts(before.push(outcome)),
            opt_text(out) == (if due(
                final(self).progress.done as nat,
                final(self).progress.every as nat,
                final(self).progress.total as nat,
            ) {
                Some(
                    progress_text(
                        final(self).progress.what@,
                        final(self).progress.done as nat,
                        final(self).progress.total as nat,
                    ),
                )
            } else {
                None
            }),
    {
        match outcome {
            FileOutcome::Rejected | FileOutcome::Duplicate => {
                self.skipped = self.skipped + 1;
            },
            FileOutcome::Inserted { linked } => {
                self.inserted = self.inserted + 1;
                if linked {
                    self.links = self.links + 1;
                }
            },
        }
        self.progress.advance()
    }
}

/// Every file is either inserted or skipped, and no more sessions are linked than were
/// inserted.
pub proof fn law_files_are_counted_once(outcomes: Seq<FileOutcome>)
    ensures
        inserted_of(outcomes) + skipped_of(outcomes) == outcomes.len(),
        linked_of(outcomes) <= inserted_of(outcomes),
    decreases outcomes.len(),
{
    if outcomes.len() > 0 {
        law_files_are_counted_once(outcomes.drop_last());
    }
}

// ---------------------------------------------------------------------------
// The whole
// ---------------------------------------------------------------------------

/// The counts of the passes that need no network.
#[derive(Debug, Clone, Copy, PartialEq, Eq, Structural)]
pub struct RefreshStats {
    pub repos: usize,
    pub sessions: usize,
    pub links: usize,
    pub commits: usize,
    pub skipped: usize,
}

/// The counts up to the commits, as a message says them.
pub open spec fn counted(s: RefreshStats) -> Seq<char> {
    "done — "@ + decimal(s.repos as nat) + " repos, "@ + decimal(s.sessions as nat)
        + " sessions, "@ + decimal(s.links as nat) + " links, "@ + decimal(s.commits as nat)
        + " commits"@
}

/// Says the counts up to the commits.
fn say_counted(s: &RefreshStats) -> (out: String)
    ensures
        out@ == counted(*s),
{
    let mut out = "done — ".to_owned();
    push_decimal(&mut out, s.repos as u64);
    out.append(" repos, ");
    push_decimal(&mut out, s.sessions as u64);
    out.append(" sessions, ");
    push_decimal(&mut out, s.links as u64);
    out.append(" links, ");
    push_decimal(&mut out, s.commits as u64);
    out.append(" commits");
    out
}

impl RefreshStats {
    /// The counts of a refresh that found no directory of sessions.
    pub fn without_sessions(repos: usize, commits: usize) -> (out: RefreshStats)
        ensures
            out == (RefreshStats { repos, sessions: 0, links: 0, commits, skipped: 0 }),
    {
        RefreshStats { repos, sessions: 0, links: 0, commits, skipped: 0 }
    }

    /// The counts of a refresh that went through a directory of sessions.
    pub fn with_sessions(repos: usize, commits: usize, pass: &SessionPass) -> (out: RefreshStats)
        ensures
            out == (RefreshStats {
                repos,
                sessions: pass.inserted,
                links: pass.links,
                commits,
                skipped: pass.skipped,
            }),
    {
        RefreshStats {
            repos,
            sessions: pass.inserted,
            links: pass.links,
            commits,
            skipped: pass.skipped,
        }
    }

    /// What is said before the remotes are asked.
    pub fn offline_message(&self) -> (out: String)
        ensures
            out@ == offline_words(*self),
    {
        let mut out = say_counted(self);
        out.append(" (");
        push_decimal(&mut out, self.skipped as u64);
        out.append(" skipped). checking CI…");
        out
    }

    /// What is said at the end.
    pub fn final_message(&self, remote: usize, content_matches: usize) -> (out: String)
        ensures
            out@ == final_words(*self, remote as nat, content_matches as nat),
    {
        let mut out = say_counted(self);
        out.append(", ");
        push_decimal(&mut out, remote as u64);
        out.append(" remote, ");
        push_decimal(&mut out, content_matches as u64);
        out.append(" content-matches (");
        push_decimal(&mut out, self.skipped as u64);
        out.append(" skipped)");
        out
    }
}

/// What is said of the passes that need no network.
pub open spec fn offline_words(s: RefreshStats) -> Seq<char> {
    counted(s) + " ("@ + decimal(s.skipped as nat) + " skipped). checking CI…"@
}

/// What is said at the end of a refresh.
pub open spec fn final_words(s: RefreshStats, remote: nat, content_matches: nat) -> Seq<char> {
    counted(s) + ", "@ + decimal(remote) + " remote, "@ + decimal(content_matches)
        + " content-matches ("@ + decimal(s.skipped as nat) + " skipped)"@
}

/// How far a refresh is.
#[derive(Debug, Clone, Copy, PartialEq, Eq, Structural)]
pub enum RefreshState {
    /// It has been asked for.
    Asked,
    /// The passes that need no network run.
    Offline,
    /// The remotes are asked.
    Remotes { stats: RefreshStats },
    /// The sessions' text is searched for names.
    Mentions { stats: RefreshStats, remote: usize },
    /// It is over.
    Over,
}

/// What happens to a refresh.
pub enum RefreshEvent {
    /// It may begin, unless another one runs.
    Begin { busy: bool },
    /// The passes that need no network are over.
    OfflineDone { result: Result<RefreshStats, String> },
    /// So many repositories have been updated from their remotes.
    RemotesDone { updated: usize },
    /// So many links have been made from names in the sessions' text.
    MentionsDone { linked: usize },
}

/// What a refresh has to do next.
#[derive(Debug, Clone, Copy, PartialEq, Eq, Structural)]
pub enum RefreshTask {
    RunOffline,
    AskRemotes,
    ScanMentions,
    /// Note the time, and have open dashboards load anew.
    Reload,
    Stop,
}

/// What a refresh makes of an event: how far it is now, what there is to say, and what
/// has to be done next.
pub struct Reaction {
    pub state: RefreshState,
    pub message: Option<String>,
    pub task: RefreshTask,
}

/// What a [`Reaction`] says.
#[verifier::ext_equal]
pub struct ReactionView {
    pub state: RefreshState,
    pub message: Option<Seq<char>>,
    pub task: RefreshTask,
}

impl View for Reaction {
    type V = ReactionView;

    open spec fn view(&self) -> ReactionView {
        ReactionView { state: self.state, message: opt_text(self.message), task: self.task }
    }
}

/// What a refresh makes of an event. One that is not due ends it.
pub open spec fn reaction(state: RefreshState, event: RefreshEvent) -> ReactionView {
    match (state, event) {
        (RefreshState::Asked, RefreshEvent::Begin { busy }) => if busy {
            ReactionView {
                state: RefreshState::Over,
                message: Some("refresh already in progress…"@),
                task: RefreshTask::Stop,
            }
        } else {
            ReactionView {
                state: RefreshState::Offline,
                message: Some("starting refresh…"@),
                task: RefreshTask::RunOffline,
            }
        },
        (RefreshState::Offline, RefreshEvent::OfflineDone { result }) => match result {
            Ok(stats) => ReactionView {
                state: RefreshState::Remotes { stats },
                message: Some(offline_words(stats)),
                task: RefreshTask::AskRemotes,
            },
            Err(error) => ReactionView {
                state: RefreshState::Over,
                message: Some("error: "@ + error@),
                task: RefreshTask::Stop,
            },
        },
        (RefreshState::Remotes { stats }, RefreshEvent::RemotesDone { updated }) => ReactionView {
            state: RefreshState::Mentions { stats, remote: updated },
            message: None,
            task: RefreshTask::ScanMentions,
        },
        (
            RefreshState::Mentions { stats, remote },
            RefreshEvent::MentionsDone { linked },
        ) => ReactionView {
            state: RefreshState::Over,
            message: Some(final_words(stats, remote as nat, linked as nat)),
            task: RefreshTask::Reload,
        },
        _ => ReactionView { state: RefreshState::Over, message: None, task: RefreshTask::Stop },
    }
}

/// What a refresh makes of an event.
pub fn react(state: RefreshState, event: RefreshEvent) -> (out: Reaction)
    ensures
        out@ == reaction(state, event),
{
    match (state, event) {
        (RefreshState::Asked, RefreshEvent::Begin { busy }) => if busy {
            Reaction {
                state: RefreshState::Over,
                message: Some("refresh already in progress…".to_owned()),
                task: RefreshTask::Stop,
            }
        } else {
            Reaction {
                state: RefreshState::Offline,
                message: Some("starting refresh…".to_owned()),
                task: RefreshTask::RunOffline,
            }
        },
        (RefreshState::Offline, RefreshEvent::OfflineDone { result }) => match result {
            Ok(stats) => Reaction {
                state: RefreshState::Remotes { stats },
                message: Some(stats.offline_message()),
                task: RefreshTask::AskRemotes,
            },
            Err(error) => {
                let mut message = "error: ".to_owned();
                message.append(error.as_str());
                Reaction {
                    state: RefreshState::Over,
                    message: Some(message),
                    task: RefreshTask::Stop,
                }
            },
        },
        (RefreshState::Remotes { stats }, RefreshEvent::RemotesDone { updated }) => Reaction {
            state: RefreshState::Mentions { stats, remote: updated },
            message: None,
            task: RefreshTask::ScanMentions,
        },
        (RefreshState::Mentions { stats, remote }, RefreshEvent::MentionsDone { linked }) => {
            Reaction {
                state: RefreshState::Over,
                message: Some(stats.final_message(remote, linked)),
                task: RefreshTask::Reload,
            }
        },
        _ => Reaction { state: RefreshState::Over, message: None, task: RefreshTask::Stop },
    }
}

/// The state that a refresh comes to over a list of events.
pub open spec fn state_after(events: Seq<RefreshEvent>) -> RefreshState
    decreases events.len(),
{
    if events.len() == 0 {
        RefreshState::Asked
    } else {
        reaction(state_after(events.drop_last()), events.last()).state
    }
}

/// A refresh has the dashboards loaded anew only when it was not refused, its passes
/// that need no network succeeded, and the remotes and the sessions' text are done;
/// what it says then counts all of these.
pub proof fn law_reload_follows_every_pass(before: Seq<RefreshEvent>, last: RefreshEvent)
    requires
        reaction(state_after(before), last).task == RefreshTask::Reload,
    ensures
        before.len() == 3,
        before[0] == (RefreshEvent::Begin { busy: false }),
        before[1] is OfflineDone && before[1]->result is Ok,
        before[2] is RemotesDone,
        last is MentionsDone,
        reaction(state_after(before), last).message == Some(
            final_words(
                before[1]->result->Ok_0,
                before[2]->updated as nat,
                last->linked as nat,
            ),
        ),
{
    reveal_with_fuel(state_after, 4);
    let a = before.drop_last();
    assert(before.len() > 0);
    let b = a.drop_last();
    assert(a.len() > 0);
    let c = b.drop_last();
    assert(b.len() > 0);
    lemma_asked_at_the_start(c);
    assert(before[2] == before.last());
    assert(before[1] == a.last());
    assert(before[0] == b.last());
}

/// No event brings a refresh back to its start.
proof fn lemma_asked_at_the_start(events: Seq<RefreshEvent>)
    ensures
        state_after(events) == RefreshState::Asked <==> events.len() == 0,
{
}

/// A refresh that is over stays over, and does nothing more.
pub proof fn law_over_is_over(event: RefreshEvent)
    ensures
        reaction(RefreshState::Over, event) == (ReactionView {
            state: RefreshState::Over,
            message: None,
            task: RefreshTask::Stop,
        }),
{
}

// ---------------------------------------------------------------------------
// The pass over the repositories
// ---------------------------------------------------------------------------

/// Whether every sum on the way is a number of 64 bits.
pub open spec fn churn_sum_fits(changes: Seq<FileChange>) -> bool {
    &&& forall|i: int|
        0 <= i < changes.len() ==> in_i64(#[trigger] changes[i].additions + changes[i].deletions)
    &&& forall|i: int| 0 <= i <= changes.len() ==> in_i64(churn_sum(#[trigger] changes.take(i)))
}

/// How many lines a list of changes added and deleted; `None` where a sum on the way is
/// no number of 64 bits.
pub fn total_churn(changes: &Vec<FileChange>) -> (out: Option<i64>)
    ensures
        match out {
            Some(n) => churn_sum_fits(changes@) && n == churn_sum(changes@),
            None => !churn_sum_fits(changes@),
        },
{
    let ghost all = changes@;
    let mut total: i64 = 0;
    let mut i: usize = 0;
    assert(all.take(0) =~= Seq::empty());
    while i < changes.len()
        invariant
            i <= changes@.len(),
            all == changes@,
            total == churn_sum(all.take(i as int)),
            forall|k: int|
                0 <= k < i ==> in_i64(#[trigger] all[k].additions + all[k].deletions),
            forall|k: int| 0 <= k <= i ==> in_i64(churn_sum(#[trigger] all.take(k))),
        decreases changes@.len() - i,
    {
        let ghost c = all[i as int];
        proof {
            assert(all.take(i + 1) =~= all.take(i as int).push(c));
            assert(churn_sum(all.take(i + 1)) == total + (c.additions + c.deletions));
        }
        let changed: i64 = match changes[i].additions.checked_add(changes[i].deletions) {
            Some(n) => n,
            None => {
                assert(!in_i64(all[i as int].additions + all[i as int].deletions));
                return None;
            },
        };
        total = match total.checked_add(changed) {
            Some(n) => n,
            None => {
                assert(!in_i64(churn_sum(all.take(i + 1))));
                return None;
            },
        };
        i = i + 1;
    }
    assert(all.take(i as int) =~= all);
    Some(total)
}

// ---------------------------------------------------------------------------
// The pass over the remotes
// ---------------------------------------------------------------------------

/// Whether the remotes can be asked.
pub fn can_ask_remotes(health: GhHealth) -> (out: bool)
    ensures
        out == (health == GhHealth::Ready),
{
    match health {
        GhHealth::Ready => true,
        _ => false,
    }
}

/// The query for the repositories with a remote and a default branch, the one with the
/// most recent commit first.
pub const TARGET_QUERY: &'static str =
    "SELECT r.id, r.remote_url, r.default_branch
     FROM repos r
     LEFT JOIN (
         SELECT repo_id, MAX(timestamp) AS latest_ts
         FROM commits GROUP BY repo_id
     ) c ON c.repo_id = r.id
     WHERE r.remote_url IS NOT NULL AND r.default_branch IS NOT NULL
     ORDER BY COALESCE(c.latest_ts, 0) DESC";

/// The query for the repositories to ask about: at most `limit` of them, or all where
/// the limit is 0.
pub fn target_query(limit: usize) -> (out: String)
    ensures
        out@ == (if limit == 0 {
            TARGET_QUERY@
        } else {
            TARGET_QUERY@ + " LIMIT "@ + decimal(limit as nat)
        }),
{
    let mut out = TARGET_QUERY.to_owned();
    if limit > 0 {
        out.append(" LIMIT ");
        push_decimal(&mut out, limit as u64);
    }
    out
}

/// A repository to ask about: its id, its remote, and its default branch.
pub type Target = (i64, String, String);

/// What a [`Target`] says.
pub type TargetView = (i64, Seq<char>, Seq<char>);

/// The targets that a list holds.
pub open spec fn target_views(targets: Seq<Target>) -> Seq<TargetView> {
    targets.map_values(|t: Target| (t.0, t.1@, t.2@))
}

/// What is asked of GitHub for a target: with `OWNER/NAME` in place of the remote, and
/// nothing where that is not on GitHub.
pub open spec fn job(t: Target) -> Option<TargetView> {
    match owner_repo(t.1@) {
        Some(slug) => Some((t.0, slug, t.2@)),
        None => None,
    }
}

/// The targets on GitHub, in their order, by `OWNER/NAME`.
pub fn github_jobs(targets: Vec<Target>) -> (out: Vec<Target>)
    ensures
        target_views(out@) == gather(targets@, |t: Target| job(t)),
{
    let ghost all = targets@;
    let ghost f = |t: Target| job(t);
    let mut out: Vec<Target> = Vec::new();
    assert(target_views(out@) =~= gather(all.take(0), f));
    for t in it: targets
        invariant
            it.seq() == all,
            f == (|t: Target| job(t)),
            target_views(out@) == gather(all.take(it.index()), f),
    {
        let ghost i = it.index();
        assert(all.take(i + 1) =~= all.take(i).push(t));
        let ghost before = out@;
        match github_owner_repo(t.1.as_str()) {
            Some(slug) => {
                let ghost now: TargetView = (t.0, slug@, t.2@);
                out.push((t.0, slug, t.2));
                assert(target_views(out@) =~= target_views(before).push(now));
            },
            None => {},
        }
    }
    assert(all.take(all.len() as int) =~= all);
    out
}

/// What the remote of a repository answered: the outcome of its latest run, its pull
/// requests and its issues, each of them where it did.
#[derive(Debug, Clone)]
pub struct RemoteSnapshot {
    pub id: i64,
    pub ci: Option<String>,
    pub prs: Option<PrCounts>,
    pub issues: Option<i64>,
}

impl RemoteSnapshot {
    /// Puts together what was answered.
    pub fn of_answers(id: i64, ci: Option<String>, counts: Option<(PrCounts, i64)>) -> (out:
        RemoteSnapshot)
        ensures
            out.id == id,
            out.ci == ci,
            match counts {
                Some((prs, issues)) => out.prs == Some(prs) && out.issues == Some(issues),
                None => out.prs is None && out.issues is None,
            },
    {
        match counts {
            Some((prs, issues)) => RemoteSnapshot { id, ci, prs: Some(prs), issues: Some(issues) },
            None => RemoteSnapshot { id, ci, prs: None, issues: None },
        }
    }

    /// The counts of pull requests to be kept: zeros where there was no answer.
    pub fn pr_counts(&self) -> (out: PrCounts)
        ensures
            out == (match self.prs {
                Some(prs) => prs,
                None => PrCounts {
                    open: 0,
                    draft: 0,
                    awaiting_my_review: 0,
                    mine_awaiting_review: 0,
                },
            }),
    {
        match self.prs {
            Some(prs) => prs,
            None => PrCounts {
                open: 0,
                draft: 0,
                awaiting_my_review: 0,
                mine_awaiting_review: 0,
            },
        }
    }
}

// ---------------------------------------------------------------------------
// Laws
// ---------------------------------------------------------------------------

/// A refresh that is not refused goes through its passes one after the other: those that
/// need no network, the remotes, the text of the sessions, and then the dashboards are
/// loaded anew. What is said on the way gives the counts of each pass.
pub proof fn law_refreshes_go_through_their_passes(
    stats: RefreshStats,
    updated: usize,
    linked: usize,
)
    ensures
        ({
            let first = reaction(RefreshState::Asked, RefreshEvent::Begin { busy: false });
            let second = reaction(first.state, RefreshEvent::OfflineDone { result: Ok(stats) });
            let third = reaction(second.state, RefreshEvent::RemotesDone { updated });
            let fourth = reaction(third.state, RefreshEvent::MentionsDone { linked });
            let counts = "done — "@ + decimal(stats.repos as nat) + " repos, "@ + decimal(
                stats.sessions as nat,
            ) + " sessions, "@ + decimal(stats.links as nat) + " links, "@ + decimal(
                stats.commits as nat,
            ) + " commits"@;
            &&& first.task == RefreshTask::RunOffline
            &&& first.message == Some("starting refresh…"@)
            &&& second.task == RefreshTask::AskRemotes
            &&& second.message == Some(
                counts + " ("@ + decimal(stats.skipped as nat) + " skipped). checking CI…"@,
            )
            &&& third.task == RefreshTask::ScanMentions
            &&& third.message is None
            &&& fourth.task == RefreshTask::Reload
            &&& fourth.state == RefreshState::Over
            &&& fourth.message == Some(
                counts + ", "@ + decimal(updated as nat) + " remote, "@ + decimal(linked as nat)
                    + " content-matches ("@ + decimal(stats.skipped as nat) + " skipped)"@,
            )
        }),
{
}

/// A refresh is refused while another one runs, and ends with its error where a pass fails;
/// nothing is loaded anew then.
pub proof fn law_refreshes_stop_where_they_must(error: String)
    ensures
        ({
            let refused = reaction(RefreshState::Asked, RefreshEvent::Begin { busy: true });
            let failed = reaction(
                RefreshState::Offline,
                RefreshEvent::OfflineDone { result: Err(error) },
            );
            &&& refused.state == RefreshState::Over
            &&& refused.task == RefreshTask::Stop
            &&& refused.message == Some("refresh already in progress…"@)
            &&& failed.state == RefreshState::Over
            &&& failed.task == RefreshTask::Stop
            &&& failed.message == Some("error: "@ + error@)
        }),
{
}

/// A pass says how far it is after every so many items and after the last one, and at no
/// other time.
pub proof fn law_progress_is_said_in_steps(done: nat, every: nat, total: nat, k: nat)
    requires
        every > 0,
    ensures
        due(k * every, every, total),
        due(total, every, total),
        due(done, every, total) ==> done == total || exists|m: nat| done == #[trigger] (m * every),
{
    vstd::arithmetic::div_mod::lemma_mod_multiples_basic(k as int, every as int);
    if due(done, every, total) && done != total {
        vstd::arithmetic::div_mod::lemma_fundamental_div_mod(done as int, every as int);
        let m = done / every;
        assert(done == m * every) by (nonlinear_arith)
            requires
                done == every * m + 0,
        ;
    }
}

/// Of the session files, those inserted are counted as sessions, those of them with a
/// repository as links, and all others as skipped.
pub proof fn law_files_are_counted_by_their_outcome(pass: SessionPass, outcomes: Seq<FileOutcome>)
    requires
        pass.counts(outcomes),
    ensures
        pass.inserted == outcomes.filter(
            |o: FileOutcome|
                o == (FileOutcome::Inserted { linked: true }) || o == (FileOutcome::Inserted {
                    linked: false,
                }),
        ).len(),
        pass.links == outcomes.filter(
            |o: FileOutcome| o == FileOutcome::Inserted { linked: true },
        ).len(),
        pass.skipped == outcomes.filter(
            |o: FileOutcome| o == FileOutcome::Rejected || o == FileOutcome::Duplicate,
        ).len(),
        pass.progress.done == outcomes.len(),
{
    let p = |o: FileOutcome|
        o == (FileOutcome::Inserted { linked: true }) || o == (FileOutcome::Inserted {
            linked: false,
        });
    let q = |o: FileOutcome| o == FileOutcome::Inserted { linked: true };
    let s = |o: FileOutcome| o == FileOutcome::Rejected || o == FileOutcome::Duplicate;
    law_counting_is_filtering(outcomes, p);
    law_counting_is_filtering(outcomes, q);
    law_counting_is_filtering(outcomes, s);
    assert forall|o: FileOutcome| #[trigger] p(o) == (o is Inserted) by {}
    assert(p =~= (|o: FileOutcome| o is Inserted));
    assert forall|o: FileOutcome| #[trigger] s(o) == !(o is Inserted) by {}
    assert(s =~= (|o: FileOutcome| !(o is Inserted)));
}

/// A message is shown as it is, but for the characters that would be read as markup, each of
/// which is spelled as its entity.
pub proof fn law_messages_are_spelled_out(a: Seq<char>, b: Seq<char>, c: char)
    ensures
        escaped(a + b) == escaped(a) + escaped(b),
        c != '&' && c != '<' && c != '>' ==> escaped(seq![c]) == seq![c],
        escaped(seq!['&']) == "&amp;"@,
        escaped(seq!['<']) == "&lt;"@,
        escaped(seq!['>']) == "&gt;"@,
        fragment(a) == "<div id=\"scan-status\" hx-swap-oob=\"true\" class=\""@ + SCAN_STATUS@
            + "\">"@ + escaped(a) + "</div>"@,
    decreases b.len(),
{
    lemma_one_escaped(c);
    lemma_one_escaped('&');
    lemma_one_escaped('<');
    lemma_one_escaped('>');
    if b.len() == 0 {
        assert(a + b =~= a);
        assert(escaped(a) + escaped(b) =~= escaped(a));
    } else {
        law_messages_are_spelled_out(a, b.drop_last(), c);
        assert((a + b).drop_last() =~= a + b.drop_last());
        assert(escaped(a + b) =~= escaped(a) + escaped(b));
    }
}

proof fn lemma_one_escaped(c: char)
    ensures
        escaped(seq![c]) == entity(c),
{
    assert(seq![c].drop_last() =~= Seq::empty());
    assert(escaped(seq![c].drop_last()) =~= Seq::empty());
    assert(escaped(seq![c]) =~= entity(c));
}

/// What is asked of GitHub about a repository on it is asked by its owner and name, under its
/// id and its default branch; nothing is asked about a repository elsewhere.
pub proof fn law_jobs_are_on_github(t: Target, owner: Seq<char>, name: Seq<char>)
    requires
        owner.len() > 0,
        name.len() > 0,
        !owner.contains('/'),
        !name.contains('/'),
    ensures
        t.1@ == "https://github.com/"@ + (owner + seq!['/'] + name) ==> job(t) == Some(
            (t.0, owner + seq!['/'] + name, t.2@),
        ),
        !has_prefix(t.1@, "https://github.com/"@) ==> job(t) is None,
{
    law_owner_and_name_are_found(owner, name, name);
}

/// What a pass says of its progress names it, how many items are done, and of how many.
pub proof fn law_progress_is_said_in_numbers(what: Seq<char>, done: nat, total: nat)
    ensures
        progress_text(what, done, total) == what + seq![' '] + decimal(done) + seq!['/'] + decimal(
            total,
        ),
{
    reveal_strlit(" ");
    reveal_strlit("/");
    assert(" "@ =~= seq![' ']);
    assert("/"@ =~= seq!['/']);
}

} // verus!
