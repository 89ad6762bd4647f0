//! Finding repositories: which directories a scan looks into, in what order, and
//! what it makes of them.
//!
//! A [`Walk`] holds the directories that are still to be looked at. Whoever runs it
//! takes the next one, looks whether it holds a `.git` entry, and says so: either
//! where the repository really is, or what the directory holds.

use crate::paths::{
    canonical, components, find_spans, law_the_last_name_is_last, lemma_spans, span_views, spans,
};
use crate::text::{chars_of, has_suffix, opt_text, same_chars, str_eq, string_of};
use vstd::prelude::*;
use vstd::slice::slice_subrange;

verus! {

/// A repository that was found.
#[derive(Debug, Clone)]
pub struct DiscoveredRepo {
    pub path: String,
    pub name: String,
}

/// What a directory holds: a path, its last part where that is text, and whether it
/// is a directory.
pub struct DirEntry {
    pub path: String,
    pub name: Option<String>,
    pub is_dir: bool,
}

/// What a [`DirEntry`] says.
#[verifier::ext_equal]
pub struct EntryView {
    pub path: Seq<char>,
    pub name: Option<Seq<char>>,
    pub is_dir: bool,
}

impl View for DirEntry {
    type V = EntryView;

    open spec fn view(&self) -> EntryView {
        EntryView {
            path: self.path@,
            name: opt_text(self.name),
            is_dir: self.is_dir,
        }
    }
}

/// The entries that a list holds.
pub open spec fn entry_views(entries: Seq<DirEntry>) -> Seq<EntryView> {
    entries.map_values(|e: DirEntry| e@)
}

/// Directories that are heavy and hold no repositories that anyone asks for.
pub open spec fn heavy(name: Seq<char>) -> bool {
    ||| name == "node_modules"@
    ||| name == "target"@
    ||| name == "dist"@
    ||| name == "build"@
    ||| name == ".venv"@
    ||| name == "venv"@
}

/// Whether a scan looks into an entry: a directory that is neither heavy nor hidden.
pub open spec fn kept(e: EntryView) -> bool {
    e.is_dir && match e.name {
        Some(name) => !heavy(name) && !(name.len() > 0 && name[0] == '.'),
        None => false,
    }
}

/// Whether a scan looks into an entry.
fn is_kept(e: &DirEntry) -> (out: bool)
    ensures
        out == kept(e@),
{
    if !e.is_dir {
        return false;
    }
    match &e.name {
        Some(name) => {
            let s = name.as_str();
            let chars = chars_of(s);
            !str_eq(s, "node_modules") && !str_eq(s, "target") && !str_eq(s, "dist") && !str_eq(
                s,
                "build",
            ) && !str_eq(s, ".venv") && !str_eq(s, "venv") && !(chars.len() > 0 && chars[0] == '.')
        },
        None => false,
    }
}

/// The name of what a path leads to: its last component, where that is a name; the
/// path itself elsewhere.
pub open spec fn name_of(path: Seq<char>) -> Seq<char> {
    let parts = components(path);
    if parts.len() > 0 && parts.last() != "/"@ && parts.last() != ".."@ && parts.last() != "."@ {
        parts.last()
    } else {
        path
    }
}

/// The name of what a path leads to.
pub fn repo_name(path: &str) -> (out: String)
    ensures
        out@ == name_of(path@),
{
    let chars = chars_of(path);
    let list = find_spans(chars.as_slice());
    proof {
        assert(span_views(list@).len() == list@.len());
        assert(components(path@).len() == list@.len());
        lemma_spans(path@, 0);
    }
    if list.len() == 0 {
        return path.to_owned();
    }
    let k: usize = list.len() - 1;
    proof {
        assert(span_views(list@)[k as int] == spans(path@)[k as int]);
        assert(spans(path@)[k as int].0 < spans(path@)[k as int].1);
    }
    let part = string_of(slice_subrange(chars.as_slice(), list[k].0, list[k].1));
    assert(part@ == components(path@).last());
    if str_eq(part.as_str(), "/") || str_eq(part.as_str(), "..") || str_eq(part.as_str(), ".") {
        path.to_owned()
    } else {
        part
    }
}

// ---------------------------------------------------------------------------
// The walk, as a state and its steps
// ---------------------------------------------------------------------------

/// A directory that is still to be looked at, and how deep below the start it lies.
pub type Pending = (Seq<char>, nat);

/// The state of a walk: the directories still to be looked at, the next one first,
/// the repositories found, and how deep the walk goes.
#[verifier::ext_equal]
pub struct WalkView {
    pub todo: Seq<Pending>,
    pub found: Seq<Seq<char>>,
    pub max_depth: nat,
}

/// The start of a walk.
pub open spec fn started(root: Seq<char>, max_depth: nat) -> WalkView {
    WalkView { todo: seq![(root, 0nat)], found: Seq::empty(), max_depth }
}

/// A repository is added to those found, unless it is among them.
pub open spec fn noted(found: Seq<Seq<char>>, path: Seq<char>) -> Seq<Seq<char>> {
    if found.contains(path) {
        found
    } else {
        found.push(path)
    }
}

/// The next directory is a repository, which really is at `path`. Nothing inside it
/// is looked at.
pub open spec fn after_repo(w: WalkView, path: Seq<char>) -> WalkView {
    WalkView { todo: w.todo.skip(1), found: noted(w.found, path), max_depth: w.max_depth }
}

/// The directories that a directory holds and that a scan looks into.
pub open spec fn children(entries: Seq<EntryView>, depth: nat) -> Seq<Pending>
    decreases entries.len(),
{
    if entries.len() == 0 {
        Seq::empty()
    } else if kept(entries.last()) {
        children(entries.drop_last(), depth).push((entries.last().path, depth))
    } else {
        children(entries.drop_last(), depth)
    }
}

/// The next directory is no repository, and holds the given entries. What it holds
/// is looked at before what else is to be done, as far as the walk goes.
pub open spec fn after_entries(w: WalkView, entries: Seq<EntryView>) -> WalkView {
    let (_, depth) = w.todo[0];
    WalkView {
        todo: (if depth < w.max_depth {
            children(entries, depth + 1)
        } else {
            Seq::empty()
        }) + w.todo.skip(1),
        found: w.found,
        max_depth: w.max_depth,
    }
}

/// A scan for repositories.
pub struct Walk {
    /// The directories still to be looked at, the next one last.
    todo: Vec<(String, usize)>,
    found: Vec<DiscoveredRepo>,
    max_depth: usize,
}

/// The directories that a list holds, from its end.
spec fn pending(todo: Seq<(String, usize)>) -> Seq<Pending> {
    todo.reverse().map_values(|p: (String, usize)| (p.0@, p.1 as nat))
}

/// The paths that a list of repositories holds.
pub open spec fn found_paths(found: Seq<DiscoveredRepo>) -> Seq<Seq<char>> {
    found.map_values(|r: DiscoveredRepo| r.path@)
}

/// Whether each repository has the name that its path gives it.
pub open spec fn well_named(found: Seq<DiscoveredRepo>) -> bool {
    forall|i: int| 0 <= i < found.len() ==> (#[trigger] found[i]).name@ == name_of(found[i].path@)
}

impl View for Walk {
    type V = WalkView;

    closed spec fn view(&self) -> WalkView {
        WalkView {
            todo: pending(self.todo@),
            found: found_paths(self.found@),
            max_depth: self.max_depth as nat,
        }
    }
}

impl Walk {
    /// Whether the repositories found have their names.
    pub closed spec fn wf(&self) -> bool {
        well_named(self.found@)
    }

    /// Starts a walk at a directory, which is looked at even if it is hidden.
    pub fn new(root: &str, max_depth: usize) -> (out: Walk)
        ensures
            out.wf(),
            out@ == started(root@, max_depth as nat),
    {
        let mut todo: Vec<(String, usize)> = Vec::new();
        todo.push((root.to_owned(), 0));
        let out = Walk { todo, found: Vec::new(), max_depth };
        proof {
            assert(pending(out.todo@) =~= seq![(root@, 0nat)]);
            assert(found_paths(out.found@) =~= Seq::empty());
        }
        out
    }

    /// The next directory to look at; `None` where the walk is done.
    pub fn next(&self) -> (out: Option<String>)
        ensures
            match out {
                Some(path) => self@.todo.len() > 0 && path@ == self@.todo[0].0,
                None => self@.todo.len() == 0,
            },
    {
        let n: usize = self.todo.len();
        if n == 0 {
            None
        } else {
            assert(self.todo@.reverse()[0] == self.todo@[n - 1]);
            Some(self.todo[n - 1].0.clone())
        }
    }

    /// Whether the entries of the next directory matter, which they do as long as the
    /// walk goes deeper.
    pub fn wants_entries(&self) -> (out: bool)
        ensures
            out == (self@.todo.len() > 0 && self@.todo[0].1 < self@.max_depth),
    {
        let n: usize = self.todo.len();
        if n == 0 {
            false
        } else {
            assert(self.todo@.reverse()[0] == self.todo@[n - 1]);
            self.todo[n - 1].1 < self.max_depth
        }
    }

    /// The next directory is a repository, which really is at `path`.
    pub fn on_repo(&mut self, path: &str)
        requires
            old(self).wf(),
            old(self)@.todo.len() > 0,
        ensures
            final(self).wf(),
            final(self)@ == after_repo(old(self)@, path@),
    {
        let ghost before = self@;
        let ghost old_todo = self.todo@;
        let ghost old_found = self.found@;
        let _ = self.todo.pop();
        assert(pending(self.todo@) =~= before.todo.skip(1));
        let mut i: usize = 0;
        while i < self.found.len()
            invariant
                i <= self.found@.len(),
                well_named(self.found@),
                old_found == self.found@,
                before.found == found_paths(self.found@),
                before.max_depth == self.max_depth,
                pending(self.todo@) == before.todo.skip(1),
                before == old(self)@,
                forall|k: int| 0 <= k < i ==> #[trigger] before.found[k] != path@,
            decreases self.found@.len() - i,
        {
            assert(before.found[i as int] == self.found@[i as int].path@);
            if str_eq(self.found[i].path.as_str(), path) {
                assert(before.found.contains(path@));
                return;
            }
            i = i + 1;
        }
        assert(!before.found.contains(path@));
        self.found.push(DiscoveredRepo { path: path.to_owned(), name: repo_name(path) });
        assert(found_paths(self.found@) =~= before.found.push(path@));
    }

    /// The next directory is no repository, and holds the given entries: none where
    /// it cannot be read.
    pub fn on_entries(&mut self, entries: Vec<DirEntry>)
        requires
            old(self).wf(),
            old(self)@.todo.len() > 0,
        ensures
            final(self).wf(),
            final(self)@ == after_entries(old(self)@, entry_views(entries@)),
    {
        let ghost before = self@;
        let ghost all = entry_views(entries@);
        let n: usize = self.todo.len();
        assert(self.todo@.reverse()[0] == self.todo@[n - 1]);
        let depth: usize = self.todo[n - 1].1;
        assert(before.todo[0].1 == depth);
        let _ = self.todo.pop();
        let ghost rest = self.todo@;
        assert(pending(rest) =~= before.todo.skip(1));
        if depth < self.max_depth {
            let mut i: usize = entries.len();
            assert(all.skip(i as int) =~= Seq::empty());
            assert(pending(self.todo@) =~= children(all.skip(i as int), (depth + 1) as nat)
                + pending(rest));
            while i > 0
                invariant
                    i <= entries@.len(),
                    all == entry_views(entries@),
                    depth < self.max_depth,
                    self.max_depth == before.max_depth,
                    well_named(self.found@),
                    found_paths(self.found@) == before.found,
                    pending(self.todo@) == children(all.skip(i as int), (depth + 1) as nat)
                        + pending(rest),
                decreases i,
            {
                i = i - 1;
                let ghost now = self.todo@;
                assert(all[i as int] == entries@[i as int]@);
                assert(all.skip(i as int) =~= seq![all[i as int]] + all.skip(i + 1));
                proof {
                    lemma_children_first(all[i as int], all.skip(i + 1), (depth + 1) as nat);
                }
                if is_kept(&entries[i]) {
                    self.todo.push((entries[i].path.clone(), depth + 1));
                    assert(pending(self.todo@) =~= seq![
                        (all[i as int].path, (depth + 1) as nat),
                    ] + pending(now));
                    assert(pending(self.todo@) =~= children(all.skip(i as int), (depth + 1) as nat)
                        + pending(rest));
                }
            }
            assert(all.skip(0) =~= all);
        } else {
            assert(Seq::<Pending>::empty() + pending(rest) =~= pending(rest));
        }
    }

    /// The repositories found.
    pub fn finish(self) -> (out: Vec<DiscoveredRepo>)
        requires
            self.wf(),
        ensures
            found_paths(out@) == self@.found,
            well_named(out@),
    {
        self.found
    }
}

/// The first entry's children come first.
proof fn lemma_children_first(e: EntryView, entries: Seq<EntryView>, depth: nat)
    ensures
        children(seq![e] + entries, depth) == (if kept(e) {
            seq![(e.path, depth)]
        } else {
            Seq::empty()
        }) + children(entries, depth),
    decreases entries.len(),
{
    let all = seq![e] + entries;
    if entries.len() == 0 {
        assert(all.drop_last() =~= Seq::empty());
        assert(all.last() == e);
        assert(children(all.drop_last(), depth) =~= Seq::empty());
        assert(children(all, depth) =~= (if kept(e) {
            seq![(e.path, depth)]
        } else {
            Seq::empty()
        }) + children(entries, depth));
    } else {
        lemma_children_first(e, entries.drop_last(), depth);
        assert(all.drop_last() =~= seq![e] + entries.drop_last());
        assert(all.last() == entries.last());
        assert(children(all, depth) =~= (if kept(e) {
            seq![(e.path, depth)]
        } else {
            Seq::empty()
        }) + children(entries, depth));
    }
}

// ---------------------------------------------------------------------------
// Laws
// ---------------------------------------------------------------------------

/// What looking at a directory shows: a repository, which really is at a path, or
/// entries.
pub enum Sight {
    Repo(Seq<char>),
    Plain(Seq<EntryView>),
}

/// What a disk shows of each path.
pub type Disk = spec_fn(Seq<char>) -> Sight;

/// The repositories at and below a directory, as deep as the walk goes: the directory
/// itself where it is one, else those of the directories in it, one after the other.
pub open spec fn below(disk: Disk, dir: Seq<char>, depth: nat, max_depth: nat) -> Seq<Seq<char>>
    decreases max_depth - depth, 1nat, 0nat,
{
    match disk(dir) {
        Sight::Repo(path) => seq![path],
        Sight::Plain(entries) => if depth < max_depth {
            below_all(disk, children(entries, (depth + 1) as nat), (depth + 1) as nat, max_depth)
        } else {
            Seq::empty()
        },
    }
}

/// The repositories at and below some directories, all of them as deep as `depth`.
pub open spec fn below_all(disk: Disk, dirs: Seq<Pending>, depth: nat, max_depth: nat) -> Seq<
    Seq<char>,
>
    decreases max_depth - depth, 2nat, dirs.len(),
{
    if dirs.len() == 0 {
        Seq::empty()
    } else {
        below(disk, dirs[0].0, depth, max_depth) + below_all(disk, dirs.skip(1), depth, max_depth)
    }
}

/// A list without what occurred before.
pub open spec fn noted_all(found: Seq<Seq<char>>, paths: Seq<Seq<char>>) -> Seq<Seq<char>>
    decreases paths.len(),
{
    if paths.len() == 0 {
        found
    } else {
        noted_all(noted(found, paths[0]), paths.skip(1))
    }
}

/// One step of a walk over a disk.
pub open spec fn step(disk: Disk, w: WalkView) -> WalkView {
    match disk(w.todo[0].0) {
        Sight::Repo(path) => after_repo(w, path),
        Sight::Plain(entries) => after_entries(w, entries),
    }
}

/// A walk over a disk, after `n` steps or as many as there are to do.
pub open spec fn stepped(disk: Disk, w: WalkView, n: nat) -> WalkView
    decreases n,
{
    if n == 0 || w.todo.len() == 0 {
        w
    } else {
        stepped(disk, step(disk, w), (n - 1) as nat)
    }
}

/// Whether the directories to be looked at are no deeper than the walk goes.
spec fn in_depth(w: WalkView) -> bool {
    forall|i: int| 0 <= i < w.todo.len() ==> (#[trigger] w.todo[i]).1 <= w.max_depth
}

/// All repositories that a walk will still come across, in order.
spec fn ahead_of(disk: Disk, todo: Seq<Pending>, max_depth: nat) -> Seq<Seq<char>>
    decreases todo.len(),
{
    if todo.len() == 0 {
        Seq::empty()
    } else {
        below(disk, todo[0].0, todo[0].1, max_depth) + ahead_of(disk, todo.skip(1), max_depth)
    }
}

/// What lies ahead of one list behind another.
proof fn lemma_ahead_of_both(disk: Disk, a: Seq<Pending>, b: Seq<Pending>, max_depth: nat)
    ensures
        ahead_of(disk, a + b, max_depth) == ahead_of(disk, a, max_depth) + ahead_of(
            disk,
            b,
            max_depth,
        ),
    decreases a.len(),
{
    if a.len() == 0 {
        assert(a + b =~= b);
        assert(ahead_of(disk, a + b, max_depth) =~= ahead_of(disk, a, max_depth) + ahead_of(
            disk,
            b,
            max_depth,
        ));
    } else {
        lemma_ahead_of_both(disk, a.skip(1), b, max_depth);
        assert((a + b).skip(1) =~= a.skip(1) + b);
        assert(ahead_of(disk, a + b, max_depth) =~= ahead_of(disk, a, max_depth) + ahead_of(
            disk,
            b,
            max_depth,
        ));
    }
}

/// Directories of one depth.
proof fn lemma_ahead_of_level(disk: Disk, dirs: Seq<Pending>, depth: nat, max_depth: nat)
    requires
        forall|i: int| 0 <= i < dirs.len() ==> (#[trigger] dirs[i]).1 == depth,
    ensures
        ahead_of(disk, dirs, max_depth) == below_all(disk, dirs, depth, max_depth),
    decreases dirs.len(),
{
    if dirs.len() > 0 {
        assert(dirs[0].1 == depth);
        assert forall|i: int| 0 <= i < dirs.skip(1).len() implies (#[trigger] dirs.skip(1)[i]).1
            == depth by {
            assert(dirs.skip(1)[i] == dirs[i + 1]);
        }
        lemma_ahead_of_level(disk, dirs.skip(1), depth, max_depth);
    }
}

/// The children of a directory are all of one depth.
proof fn lemma_children_depth(entries: Seq<EntryView>, depth: nat)
    ensures
        forall|i: int|
            0 <= i < children(entries, depth).len() ==> (#[trigger] children(entries, depth)[i]).1
                == depth,
        children(entries, depth).len() <= entries.len(),
    decreases entries.len(),
{
    if entries.len() > 0 {
        lemma_children_depth(entries.drop_last(), depth);
    }
}

/// A step leaves unchanged what a walk comes to.
proof fn lemma_step(disk: Disk, w: WalkView)
    requires
        in_depth(w),
        w.todo.len() > 0,
    ensures
        in_depth(step(disk, w)),
        step(disk, w).max_depth == w.max_depth,
        noted_all(step(disk, w).found, ahead_of(disk, step(disk, w).todo, w.max_depth))
            == noted_all(w.found, ahead_of(disk, w.todo, w.max_depth)),
{
    let (dir, depth) = w.todo[0];
    let rest = w.todo.skip(1);
    let next = step(disk, w);
    let behind = ahead_of(disk, rest, w.max_depth);
    assert(depth <= w.max_depth);
    assert forall|i: int| 0 <= i < rest.len() implies (#[trigger] rest[i]).1 <= w.max_depth by {
        assert(rest[i] == w.todo[i + 1]);
    }
    match disk(dir) {
        Sight::Repo(path) => {
            let all = seq![path] + behind;
            assert(ahead_of(disk, w.todo, w.max_depth) == all);
            assert(all.skip(1) =~= behind);
            assert(all[0] == path);
        },
        Sight::Plain(entries) => {
            if depth < w.max_depth {
                let kids = children(entries, (depth + 1) as nat);
                lemma_children_depth(entries, (depth + 1) as nat);
                lemma_ahead_of_level(disk, kids, (depth + 1) as nat, w.max_depth);
                lemma_ahead_of_both(disk, kids, rest, w.max_depth);
                assert forall|i: int| 0 <= i < next.todo.len() implies (#[trigger] next.todo[i]).1
                    <= w.max_depth by {
                    if i < kids.len() {
                        assert(next.todo[i] == kids[i]);
                    } else {
                        assert(next.todo[i] == rest[i - kids.len()]);
                    }
                }
            } else {
                assert(next.todo =~= rest);
                assert(ahead_of(disk, w.todo, w.max_depth) =~= behind);
            }
        },
    }
}

/// How many steps looking at and below a directory takes.
spec fn effort(disk: Disk, dir: Seq<char>, depth: nat, max_depth: nat) -> nat
    decreases max_depth - depth, 1nat, 0nat,
{
    match disk(dir) {
        Sight::Repo(_) => 1,
        Sight::Plain(entries) => if depth < max_depth {
            1 + effort_all(
                disk,
                children(entries, (depth + 1) as nat),
                (depth + 1) as nat,
                max_depth,
            )
        } else {
            1
        },
    }
}

spec fn effort_all(disk: Disk, dirs: Seq<Pending>, depth: nat, max_depth: nat) -> nat
    decreases max_depth - depth, 2nat, dirs.len(),
{
    if dirs.len() == 0 {
        0
    } else {
        effort(disk, dirs[0].0, depth, max_depth) + effort_all(
            disk,
            dirs.skip(1),
            depth,
            max_depth,
        )
    }
}

/// How many steps a walk still takes.
spec fn left(disk: Disk, todo: Seq<Pending>, max_depth: nat) -> nat
    decreases todo.len(),
{
    if todo.len() == 0 {
        0
    } else {
        effort(disk, todo[0].0, todo[0].1, max_depth) + left(disk, todo.skip(1), max_depth)
    }
}

proof fn lemma_left_both(disk: Disk, a: Seq<Pending>, b: Seq<Pending>, max_depth: nat)
    ensures
        left(disk, a + b, max_depth) == left(disk, a, max_depth) + left(disk, b, max_depth),
    decreases a.len(),
{
    if a.len() == 0 {
        assert(a + b =~= b);
    } else {
        lemma_left_both(disk, a.skip(1), b, max_depth);
        assert((a + b).skip(1) =~= a.skip(1) + b);
    }
}

proof fn lemma_left_level(disk: Disk, dirs: Seq<Pending>, depth: nat, max_depth: nat)
    requires
        forall|i: int| 0 <= i < dirs.len() ==> (#[trigger] dirs[i]).1 == depth,
    ensures
        left(disk, dirs, max_depth) == effort_all(disk, dirs, depth, max_depth),
    decreases dirs.len(),
{
    if dirs.len() > 0 {
        assert(dirs[0].1 == depth);
        assert forall|i: int| 0 <= i < dirs.skip(1).len() implies (#[trigger] dirs.skip(1)[i]).1
            == depth by {
            assert(dirs.skip(1)[i] == dirs[i + 1]);
        }
        lemma_left_level(disk, dirs.skip(1), depth, max_depth);
    }
}

/// Every step leaves one step less to do.
proof fn lemma_step_less(disk: Disk, w: WalkView)
    requires
        w.todo.len() > 0,
    ensures
        left(disk, step(disk, w).todo, w.max_depth) == left(disk, w.todo, w.max_depth) - 1,
{
    let (dir, depth) = w.todo[0];
    let rest = w.todo.skip(1);
    match disk(dir) {
        Sight::Repo(_) => {},
        Sight::Plain(entries) => {
            if depth < w.max_depth {
                let kids = children(entries, (depth + 1) as nat);
                lemma_children_depth(entries, (depth + 1) as nat);
                lemma_left_level(disk, kids, (depth + 1) as nat, w.max_depth);
                lemma_left_both(disk, kids, rest, w.max_depth);
            } else {
                assert(step(disk, w).todo =~= rest);
            }
        },
    }
}

/// A walk that takes all its steps has found what lay ahead.
proof fn lemma_stepped(disk: Disk, w: WalkView)
    requires
        in_depth(w),
    ensures
        stepped(disk, w, left(disk, w.todo, w.max_depth)).todo.len() == 0,
        stepped(disk, w, left(disk, w.todo, w.max_depth)).found == noted_all(
            w.found,
            ahead_of(disk, w.todo, w.max_depth),
        ),
    decreases left(disk, w.todo, w.max_depth),
{
    if w.todo.len() > 0 {
        lemma_step(disk, w);
        lemma_step_less(disk, w);
        lemma_stepped(disk, step(disk, w));
    }
}

/// A walk over a disk comes to its end, and has then found the repositories at and
/// below its start, each once, in the order in which a search from directory to
/// directory comes across them.
pub proof fn law_walk_finds_all(disk: Disk, root: Seq<char>, max_depth: nat)
    ensures
        exists|n: nat| #[trigger]
            stepped(disk, started(root, max_depth), n).todo.len() == 0 && stepped(
                disk,
                started(root, max_depth),
                n,
            ).found == noted_all(Seq::empty(), below(disk, root, 0, max_depth)),
{
    let w = started(root, max_depth);
    lemma_stepped(disk, w);
    let n = left(disk, w.todo, w.max_depth);
    assert(w.todo.skip(1) =~= Seq::empty());
    assert(ahead_of(disk, w.todo.skip(1), max_depth) =~= Seq::empty());
    assert(ahead_of(disk, w.todo, max_depth) =~= below(disk, root, 0, max_depth));
    assert(stepped(disk, w, n).todo.len() == 0);
}

/// No repository is found twice, however the walk goes on.
pub proof fn law_nothing_is_found_twice(disk: Disk, w: WalkView, n: nat)
    requires
        w.found.no_duplicates(),
    ensures
        stepped(disk, w, n).found.no_duplicates(),
    decreases n,
{
    if n > 0 && w.todo.len() > 0 {
        law_nothing_is_found_twice(disk, step(disk, w), (n - 1) as nat);
    }
}

/// A walk never looks at a directory that lies deeper than it goes.
pub proof fn law_walk_stays_in_depth(disk: Disk, root: Seq<char>, max_depth: nat, n: nat, i: int)
    requires
        0 <= i < stepped(disk, started(root, max_depth), n).todo.len(),
    ensures
        stepped(disk, started(root, max_depth), n).todo[i].1 <= max_depth,
{
    lemma_stays_in_depth(disk, started(root, max_depth), n);
}

proof fn lemma_stays_in_depth(disk: Disk, w: WalkView, n: nat)
    requires
        in_depth(w),
    ensures
        in_depth(stepped(disk, w, n)),
        stepped(disk, w, n).max_depth == w.max_depth,
    decreases n,
{
    if n > 0 && w.todo.len() > 0 {
        lemma_step(disk, w);
        lemma_stays_in_depth(disk, step(disk, w), (n - 1) as nat);
    }
}

/// Nothing inside a repository is looked at: where the start is one, it is all that
/// is found.
pub proof fn law_repositories_are_not_entered(
    disk: Disk,
    root: Seq<char>,
    path: Seq<char>,
    max_depth: nat,
    n: nat,
)
    requires
        disk(root) == Sight::Repo(path),
        n > 0,
    ensures
        stepped(disk, started(root, max_depth), n).found == seq![path],
        stepped(disk, started(root, max_depth), n).todo.len() == 0,
{
    let w = started(root, max_depth);
    let next = step(disk, w);
    assert(next.todo =~= Seq::empty());
    assert(next.found =~= seq![path]);
    assert(stepped(disk, next, (n - 1) as nat) == next);
}

// ---------------------------------------------------------------------------
// Session files
// ---------------------------------------------------------------------------

/// Whether a path is that of a session file: what follows the last dot of its name is
/// `jsonl`, and something stands before that dot.
pub open spec fn session_file(path: Seq<char>) -> bool {
    let parts = components(path);
    &&& parts.len() > 0
    &&& parts.last().len() > ".jsonl"@.len()
    &&& has_suffix(parts.last(), ".jsonl"@)
}

/// Whether a path is that of a session file.
pub fn is_session_file(path: &str) -> (out: bool)
    ensures
        out == session_file(path@),
{
    let chars = chars_of(path);
    let list = find_spans(chars.as_slice());
    let ending = chars_of(".jsonl");
    proof {
        assert(span_views(list@).len() == list@.len());
        assert(components(path@).len() == list@.len());
        lemma_spans(path@, 0);
    }
    if list.len() == 0 {
        return false;
    }
    let k: usize = list.len() - 1;
    proof {
        assert(span_views(list@)[k as int] == spans(path@)[k as int]);
        assert(spans(path@)[k as int].0 < spans(path@)[k as int].1);
    }
    let part = slice_subrange(chars.as_slice(), list[k].0, list[k].1);
    assert(part@ == components(path@).last());
    if part.len() <= ending.len() {
        return false;
    }
    let start: usize = part.len() - ending.len();
    let tail = slice_subrange(part, start, part.len());
    assert(tail@ =~= part@.skip(part@.len() - ".jsonl"@.len()));
    same_chars(tail, ending.as_slice())
}

/// A repository goes by the name behind the last separator of its path.
pub proof fn law_repositories_go_by_their_last_name(dir: Seq<char>, name: Seq<char>)
    requires
        canonical(dir + seq!['/'] + name),
        name.len() > 0,
        !name.contains('/'),
        name != "."@ && name != ".."@,
    ensures
        name_of(dir + seq!['/'] + name) == name,
{
    reveal_strlit("/");
    law_the_last_name_is_last(dir, name);
    if name == "/"@ {
        assert(name[0] == '/');
    }
}

/// A file is one of a session exactly where its name ends in `.jsonl`, with something before
/// it.
pub proof fn law_session_files_end_in_jsonl(dir: Seq<char>, name: Seq<char>)
    requires
        canonical(dir + seq!['/'] + name),
        name.len() > 0,
        !name.contains('/'),
    ensures
        session_file(dir + seq!['/'] + name) <==> name.len() > 6 && name.skip(name.len() - 6)
            == ".jsonl"@,
{
    reveal_strlit(".jsonl");
    law_the_last_name_is_last(dir, name);
}

/// A scan looks into every directory but those that are hidden or heavy: `node_modules`,
/// `target`, `dist`, `build` and `venv`.
pub proof fn law_what_is_looked_into(e: EntryView)
    ensures
        kept(e) ==> e.is_dir && e.name is Some,
        e.is_dir && (e.name matches Some(name) && name.len() > 0 && name[0] != '.' && name
            != "node_modules"@ && name != "target"@ && name != "dist"@ && name != "build"@ && name
            != "venv"@) ==> kept(e),
        e.name matches Some(name) ==> name.len() > 0 && name[0] == '.' ==> !kept(e),
        e.name == Some("node_modules"@) || e.name == Some("target"@) || e.name == Some("dist"@)
            || e.name == Some("build"@) || e.name == Some("venv"@) ==> !kept(e),
{
    reveal_strlit(".venv");
    assert(".venv"@[0] == '.');
}

/// What is still to be looked at below a directory is every entry that is looked into, in
/// the order of the entries, one level deeper.
pub proof fn law_children_are_entries(entries: Seq<EntryView>, e: EntryView, depth: nat)
    ensures
        children(entries.push(e), depth) == (if kept(e) {
            children(entries, depth).push((e.path, depth))
        } else {
            children(entries, depth)
        }),
        children(Seq::empty(), depth) == Seq::<Pending>::empty(),
{
    assert(entries.push(e).drop_last() =~= entries);
}

/// Whether each of the directories holds the next one, as one that is looked into, and the
/// last of them is a repository.
pub open spec fn leads_to_repo(disk: Disk, dirs: Seq<Seq<char>>) -> bool {
    &&& dirs.len() > 0
    &&& disk(dirs.last()) is Repo
    &&& forall|i: int|
        0 <= i < dirs.len() - 1 ==> {
            &&& #[trigger] disk(dirs[i]) is Plain
            &&& exists|j: int|
                0 <= j < disk(dirs[i])->Plain_0.len() && kept(#[trigger] disk(dirs[i])->Plain_0[j])
                    && disk(dirs[i])->Plain_0[j].path == dirs[i + 1]
        }
}

/// A repository that directories lead to is found, as deep as the scan goes.
pub proof fn law_what_is_led_to_is_found(
    disk: Disk,
    dirs: Seq<Seq<char>>,
    depth: nat,
    max_depth: nat,
)
    requires
        leads_to_repo(disk, dirs),
        depth + dirs.len() - 1 <= max_depth,
    ensures
        below(disk, dirs[0], depth, max_depth).contains(disk(dirs.last())->Repo_0),
    decreases dirs.len(),
{
    if dirs.len() == 1 {
        assert(below(disk, dirs[0], depth, max_depth)[0] == disk(dirs[0])->Repo_0);
    } else {
        let rest = dirs.skip(1);
        assert(rest.last() == dirs.last());
        assert(disk(dirs[0]) is Plain);
        let entries = disk(dirs[0])->Plain_0;
        let j = choose|j: int|
            0 <= j < entries.len() && kept(#[trigger] entries[j]) && entries[j].path == dirs[0int + 1];
        assert forall|i: int| 0 <= i < rest.len() - 1 implies {
            &&& #[trigger] disk(rest[i]) is Plain
            &&& exists|j: int|
                0 <= j < disk(rest[i])->Plain_0.len() && kept(#[trigger] disk(rest[i])->Plain_0[j])
                    && disk(rest[i])->Plain_0[j].path == rest[i + 1]
        } by {
            assert(rest[i] == dirs[i + 1]);
            assert(rest[i + 1] == dirs[(i + 1) + 1]);
            assert(disk(dirs[i + 1]) is Plain);
        }
        law_what_is_led_to_is_found(disk, rest, depth + 1, max_depth);
        lemma_child_of(entries, j, depth + 1);
        let kids = children(entries, depth + 1);
        let c = choose|c: int| 0 <= c < kids.len() && (#[trigger] kids[c]).0 == entries[j].path;
        lemma_below_all_contains(disk, kids, c, depth + 1, max_depth, disk(dirs.last())->Repo_0);
    }
}

proof fn lemma_child_of(entries: Seq<EntryView>, j: int, depth: nat)
    requires
        0 <= j < entries.len(),
        kept(entries[j]),
    ensures
        exists|c: int|
            0 <= c < children(entries, depth).len() && (#[trigger] children(entries, depth)[c]).0
                == entries[j].path,
    decreases entries.len(),
{
    let rest = entries.drop_last();
    let all = children(entries, depth);
    if j < rest.len() {
        assert(rest[j] == entries[j]);
        lemma_child_of(rest, j, depth);
        let c = choose|c: int|
            0 <= c < children(rest, depth).len() && (#[trigger] children(rest, depth)[c]).0
                == rest[j].path;
        assert(all[c] == children(rest, depth)[c]);
    } else {
        assert(all[all.len() - 1].0 == entries[j].path);
    }
}

proof fn lemma_below_all_contains(
    disk: Disk,
    dirs: Seq<Pending>,
    c: int,
    depth: nat,
    max_depth: nat,
    path: Seq<char>,
)
    requires
        0 <= c < dirs.len(),
        below(disk, dirs[c].0, depth, max_depth).contains(path),
    ensures
        below_all(disk, dirs, depth, max_depth).contains(path),
    decreases dirs.len(),
{
    let first = below(disk, dirs[0].0, depth, max_depth);
    let rest = below_all(disk, dirs.skip(1), depth, max_depth);
    let all = below_all(disk, dirs, depth, max_depth);
    assert(all == first + rest);
    if c == 0 {
        let i = choose|i: int| 0 <= i < first.len() && first[i] == path;
        assert(all[i] == path);
    } else {
        assert(dirs.skip(1)[c - 1] == dirs[c]);
        lemma_below_all_contains(disk, dirs.skip(1), c - 1, depth, max_depth, path);
        let i = choose|i: int| 0 <= i < rest.len() && rest[i] == path;
        assert(all[first.len() + i] == path);
    }
}

/// Whatever is found is a repository that directories lead to, within the depth of the scan.
pub proof fn law_what_is_found_is_led_to(
    disk: Disk,
    dir: Seq<char>,
    depth: nat,
    max_depth: nat,
    path: Seq<char>,
)
    requires
        depth <= max_depth,
        below(disk, dir, depth, max_depth).contains(path),
    ensures
        exists|dirs: Seq<Seq<char>>| #[trigger]
            leads_to_repo(disk, dirs) && dirs[0] == dir && depth + dirs.len() - 1 <= max_depth
                && disk(dirs.last()) == Sight::Repo(path),
    decreases max_depth - depth,
{
    match disk(dir) {
        Sight::Repo(here) => {
            let all = below(disk, dir, depth, max_depth);
            let i = choose|i: int| 0 <= i < all.len() && all[i] == path;
            assert(path == here);
            let dirs = seq![dir];
            assert(leads_to_repo(disk, dirs));
        },
        Sight::Plain(entries) => {
            let all = below(disk, dir, depth, max_depth);
            let i = choose|i: int| 0 <= i < all.len() && all[i] == path;
            assert(depth < max_depth);
            let kids = children(entries, depth + 1);
            let c = lemma_below_all_from(disk, kids, depth + 1, max_depth, path);
            let j = lemma_entry_of(entries, depth + 1, c);
            law_what_is_found_is_led_to(disk, kids[c].0, depth + 1, max_depth, path);
            let rest = choose|dirs: Seq<Seq<char>>| #[trigger]
                leads_to_repo(disk, dirs) && dirs[0] == kids[c].0 && depth + 1 + dirs.len() - 1
                    <= max_depth && disk(dirs.last()) == Sight::Repo(path);
            let dirs = seq![dir] + rest;
            assert(dirs.last() == rest.last());
            assert forall|k: int| 0 <= k < dirs.len() - 1 implies {
                &&& #[trigger] disk(dirs[k]) is Plain
                &&& exists|j: int|
                    0 <= j < disk(dirs[k])->Plain_0.len() && kept(
                        #[trigger] disk(dirs[k])->Plain_0[j],
                    ) && disk(dirs[k])->Plain_0[j].path == dirs[k + 1]
            } by {
                if k == 0 {
                    assert(disk(dirs[k])->Plain_0[j] == entries[j]);
                    assert(dirs[k + 1] == rest[0]);
                } else {
                    assert(dirs[k] == rest[k - 1]);
                    assert(dirs[k + 1] == rest[(k - 1) + 1]);
                    assert(disk(rest[k - 1]) is Plain);
                }
            }
            assert(leads_to_repo(disk, dirs));
        },
    }
}

proof fn lemma_below_all_from(
    disk: Disk,
    dirs: Seq<Pending>,
    depth: nat,
    max_depth: nat,
    path: Seq<char>,
) -> (c: int)
    requires
        below_all(disk, dirs, depth, max_depth).contains(path),
    ensures
        0 <= c < dirs.len(),
        below(disk, dirs[c].0, depth, max_depth).contains(path),
    decreases dirs.len(),
{
    let all = below_all(disk, dirs, depth, max_depth);
    let i = choose|i: int| 0 <= i < all.len() && all[i] == path;
    assert(dirs.len() > 0);
    let first = below(disk, dirs[0].0, depth, max_depth);
    let rest = below_all(disk, dirs.skip(1), depth, max_depth);
    assert(all == first + rest);
    if i < first.len() {
        assert(first[i] == path);
        0
    } else {
        assert(rest[i - first.len()] == path);
        let c = lemma_below_all_from(disk, dirs.skip(1), depth, max_depth, path);
        assert(dirs.skip(1)[c] == dirs[c + 1]);
        c + 1
    }
}

proof fn lemma_entry_of(entries: Seq<EntryView>, depth: nat, c: int) -> (j: int)
    requires
        0 <= c < children(entries, depth).len(),
    ensures
        0 <= j < entries.len(),
        kept(entries[j]),
        entries[j].path == children(entries, depth)[c].0,
    decreases entries.len(),
{
    let rest = entries.drop_last();
    let front = children(rest, depth);
    if c < front.len() {
        let j = lemma_entry_of(rest, depth, c);
        assert(rest[j] == entries[j]);
        j
    } else {
        entries.len() - 1
    }
}

/// Noting paths keeps every path, and adds none.
proof fn lemma_noted_all(found: Seq<Seq<char>>, paths: Seq<Seq<char>>, path: Seq<char>)
    ensures
        noted_all(found, paths).contains(path) <==> found.contains(path) || paths.contains(path),
    decreases paths.len(),
{
    if paths.len() > 0 {
        let next = noted(found, paths[0]);
        let rest = paths.skip(1);
        lemma_noted_all(next, rest, path);
        assert(next.contains(path) <==> found.contains(path) || path == paths[0]) by {
            if found.contains(path) && !found.contains(paths[0]) {
                let i = choose|i: int| 0 <= i < found.len() && found[i] == path;
                assert(next[i] == path);
            }
            if next.contains(path) && !found.contains(paths[0]) {
                let i = choose|i: int| 0 <= i < next.len() && next[i] == path;
                if i < found.len() {
                    assert(found[i] == path);
                }
            }
            if path == paths[0] && !found.contains(path) {
                assert(next[next.len() - 1] == path);
            }
        }
        assert(paths.contains(path) <==> rest.contains(path) || path == paths[0]) by {
            if rest.contains(path) {
                let i = choose|i: int| 0 <= i < rest.len() && rest[i] == path;
                assert(paths[i + 1] == path);
            }
            if paths.contains(path) && path != paths[0] {
                let i = choose|i: int| 0 <= i < paths.len() && paths[i] == path;
                assert(rest[i - 1] == path);
            }
        }
    }
}

/// A walk over a disk ends, and a path is then among those found exactly where directories
/// lead to a repository there: from the start on, each in the one before, no deeper than the
/// walk goes.
pub proof fn law_walk_finds_what_is_led_to(disk: Disk, root: Seq<char>, max_depth: nat)
    ensures
        exists|n: nat| #[trigger]
            stepped(disk, started(root, max_depth), n).todo.len() == 0 && forall|path: Seq<char>|
                #[trigger]
                stepped(disk, started(root, max_depth), n).found.contains(path) <==> exists|
                    dirs: Seq<Seq<char>>,
                | #[trigger]
                    leads_to_repo(disk, dirs) && dirs[0] == root && dirs.len() - 1 <= max_depth
                        && disk(dirs.last()) == Sight::Repo(path),
{
    law_walk_finds_all(disk, root, max_depth);
    let n = choose|n: nat| #[trigger]
        stepped(disk, started(root, max_depth), n).todo.len() == 0 && stepped(
            disk,
            started(root, max_depth),
            n,
        ).found == noted_all(Seq::empty(), below(disk, root, 0, max_depth));
    let found = stepped(disk, started(root, max_depth), n).found;
    assert forall|path: Seq<char>| #[trigger] found.contains(path) <==> exists|
        dirs: Seq<Seq<char>>,
    | #[trigger]
        leads_to_repo(disk, dirs) && dirs[0] == root && dirs.len() - 1 <= max_depth && disk(
            dirs.last(),
        ) == Sight::Repo(path) by {
        lemma_noted_all(Seq::empty(), below(disk, root, 0, max_depth), path);
        if found.contains(path) {
            law_what_is_found_is_led_to(disk, root, 0, max_depth, path);
        }
        if exists|dirs: Seq<Seq<char>>| #[trigger]
            leads_to_repo(disk, dirs) && dirs[0] == root && dirs.len() - 1 <= max_depth && disk(
                dirs.last(),
            ) == Sight::Repo(path) {
            let dirs = choose|dirs: Seq<Seq<char>>| #[trigger]
                leads_to_repo(disk, dirs) && dirs[0] == root && dirs.len() - 1 <= max_depth && disk(
                    dirs.last(),
                ) == Sight::Repo(path);
            law_what_is_led_to_is_found(disk, dirs, 0, max_depth);
        }
    }
}

} // verus!
