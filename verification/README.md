# repo-recall

A local dashboard that joins the history of coding sessions to the git repositories
on disk. It answers two questions: which sessions were about this repository, and which
repositories did this session touch.

The crate has two parts.

- `src/` is the verified library: what a session file, a git log, a working tree or an
  answer of `gh` says, which repository a working directory belongs to, how repositories
  are ranked, how a scan walks the disk, how a refresh proceeds, and what the pages show.
  Verus proves the contract of every function but the few that call `serde_json`, `chrono`
  or the standard library on its behalf (in `json`, `clock` and `text`): what these claim is
  believed, and said in their comments. Functions named `law_…` state what holds of several
  functions together.
- `app/` is the server around it: the environment, the file system, the `git` and `gh`
  commands, the SQLite cache, and the markup.

## Modules of the library

| Module | What it is about |
|---|---|
| `activity` | scores of repositories and the order of their list |
| `commits` | what is asked of `git` and `gh`, and what the answers mean |
| `config` | settings from the environment |
| `dashboard`, `pages`, `templates` | what the pages show, before it is markup |
| `db` | the records of the cache, and what is computed from its rows |
| `join`, `paths` | paths, and the repository a working directory belongs to |
| `mentions` | repository names in the text of a session |
| `refresh` | the passes of a refresh, their counts and messages |
| `scanner` | the walk that finds repositories |
| `sessions`, `transcript` | session files |
| `clock`, `json`, `text`, `order`, `product`, `seqs` | what the rest is built from |

## Environment

| Variable | Default | Purpose |
|---|---|---|
| `REPO_RECALL_PORT` | `7777` | port on `127.0.0.1` |
| `REPO_RECALL_CWD` | process cwd | directory to scan |
| `REPO_RECALL_DEPTH` | `4` | levels below it |
| `REPO_RECALL_COMMITS_PER_REPO` | `500` | commits read of a repository |
| `REPO_RECALL_REFRESH_INTERVAL_SECS` | `150` | seconds between refreshes, `0` for none |
| `REPO_RECALL_REMOTE_TARGET_LIMIT` | `25` | repositories asked about at their remotes, `0` for all |
| `REPO_RECALL_SESSIONS_DIR` | none | directory of session files |
| `REPO_RECALL_AUTHOR` | git's global email | who `?author=me` is |
| `REPO_RECALL_DB` | in the temporary directory | the cache, rebuilt at every start |
