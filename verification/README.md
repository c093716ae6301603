# gitea-mirror-sync

Keeps pull mirrors on a Gitea/Forgejo instance in step with a source forge (GitHub,
GitLab, Gitea/Forgejo or GitBucket): it creates the mirrors that are missing, adopts
those that are there, re-authenticates them when the source token changes, and never
recreates what a user converted or deleted.

`src/` is the library, verified with Verus. It decides; it sends nothing, reads no
file and does not sleep.

| Module | What it holds |
|--------|---------------|
| `config` | the settings, and the API base URL of the source |
| `filter` | which of the source's repositories are mirrored |
| `http` | requests, failures worth another try, lists that come in pages |
| `json` | JSON values |
| `names` | the order of names, and sets of names |
| `scheduler` | cron schedules, and what the daemon does upon each event |
| `source` | how the four forges list their repositories |
| `state` | what is remembered between runs |
| `sync` | the reconciliation pass, one call at a time; `sync::laws` says what holds of every pass |
| `target` | what is asked of the target, and how its answers are read |
| `text` | text operations |

What is taken on trust is what the library gets from `regex`, `sha2`, `cron` with
`chrono`, and `String::push`; each such function is marked `external_body` or stands in
an `assume_specification`, with its claim in the comment above it.

`app/` is the program around the library: settings from the environment, HTTP, the
state file, the clock and signals.
