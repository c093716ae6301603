//! The settings of the tool.
use crate::text::{
    contains, ends_with, has_part, has_suffix, law_part_stands_between, law_suffix_is_what_stands_last,
    law_trimming_undoes_appending, occurs_at, trim_end, trimmed_end,
};
use vstd::prelude::*;

verus! {

/// Which kind of forge we mirror *from*.
#[derive(Debug, Clone, Copy, PartialEq, Eq, Structural)]
pub enum SourceType {
    Github,
    Gitlab,
    Gitea,
    Gitbucket,
}

/// Whether an owner is an individual user or an organization/group.
#[derive(Debug, Clone, Copy, PartialEq, Eq, Structural)]
pub enum OwnerType {
    /// Detect automatically by probing the org/group endpoint.
    Auto,
    User,
    Org,
}

impl Default for OwnerType {
    fn default() -> (r: OwnerType)
        ensures
            r == OwnerType::Auto,
    {
        OwnerType::Auto
    }
}

/// What to do when the source token changed and the target instance has no
/// API to re-authenticate an existing pull mirror.
#[derive(Debug, Clone, Copy, PartialEq, Eq, Structural)]
pub enum RotationMode {
    /// PATCH mirror_token if supported (Gitea >= 1.27), otherwise delete + recreate.
    Auto,
    /// Always delete + recreate the mirror with the new token.
    Recreate,
    /// Do nothing but log the repos that need a manual re-auth.
    Warn,
}

impl Default for RotationMode {
    fn default() -> (r: RotationMode)
        ensures
            r == RotationMode::Auto,
    {
        RotationMode::Auto
    }
}

#[derive(Debug, Clone)]
pub struct Config {
    // ---- Target (the local Gitea/Forgejo instance that holds the mirrors) ----
    pub target_url: String,
    pub target_token: String,
    pub target_owner: String,
    pub target_owner_type: OwnerType,
    // ---- Source (the forge we mirror from) ----
    pub source_type: SourceType,
    pub source_url: Option<String>,
    pub source_token: String,
    pub source_owner: String,
    pub source_owner_type: OwnerType,
    // ---- Scheduling (discovery cadence; the actual git sync is done by Gitea) ----
    pub cron: String,
    // ---- Filters ----
    pub filter_include: Option<String>,
    pub filter_exclude: Option<String>,
    pub filter_limit: Option<usize>,
    pub skip_forks: bool,
    pub skip_archived: bool,
    pub include_private: bool,
    // ---- Mirror behavior ----
    pub mirror_interval: String,
    pub mirror_private: bool,
    pub trigger_sync: bool,
    pub rotation_mode: RotationMode,
    // ---- State ----
    pub state_file: String,
}

/// The schedule when none is set: hourly at :00, as a 6-field cron expression
/// (sec min hour day-of-month month day-of-week).
pub fn d_cron() -> (r: String)
    ensures
        r@ == "0 0 * * * *"@,
{
    "0 0 * * * *".to_owned()
}

/// The interval at which the target syncs a mirror when none is set.
pub fn d_interval() -> (r: String)
    ensures
        r@ == "8h0m0s"@,
{
    "8h0m0s".to_owned()
}

/// The default of the switches that are on unless set.
pub fn d_true() -> (r: bool)
    ensures
        r,
{
    true
}

/// The state file when none is set.
pub fn d_state() -> (r: String)
    ensures
        r@ == "gms-state.json"@,
{
    "gms-state.json".to_owned()
}

/// Why no API base URL can be given.
#[derive(Debug, Clone, Copy, PartialEq, Eq, Structural)]
pub enum ConfigError {
    /// This kind of forge has no public host to fall back on.
    SourceUrlRequired(SourceType),
}

/// The name of a kind of forge in messages.
pub open spec fn forge_name(kind: SourceType) -> Seq<char> {
    match kind {
        SourceType::Github => "Github"@,
        SourceType::Gitlab => "Gitlab"@,
        SourceType::Gitea => "Gitea"@,
        SourceType::Gitbucket => "Gitbucket"@,
    }
}

impl ConfigError {
    /// The error in words.
    pub fn message(&self) -> (r: String)
        ensures
            r@ == "GMS_SOURCE_URL is required for source type "@ + forge_name(
                self->SourceUrlRequired_0,
            ),
    {
        let ConfigError::SourceUrlRequired(kind) = self;
        let name = match kind {
            SourceType::Github => "Github",
            SourceType::Gitlab => "Gitlab",
            SourceType::Gitea => "Gitea",
            SourceType::Gitbucket => "Gitbucket",
        };
        "GMS_SOURCE_URL is required for source type ".to_owned().concat(name)
    }
}

/// The host of a forge that needs no URL to be set.
pub open spec fn public_host(kind: SourceType) -> Option<Seq<char>> {
    match kind {
        SourceType::Github => Some("https://api.github.com"@),
        SourceType::Gitlab => Some("https://gitlab.com"@),
        _ => None,
    }
}

/// The base URL `raw` with the path of the forge's API, unless it is there already.
pub open spec fn with_api_path(kind: SourceType, raw: Seq<char>) -> Seq<char> {
    match kind {
        SourceType::Github => raw,
        SourceType::Gitlab => if has_part(raw, "/api/v"@) {
            raw
        } else {
            raw + "/api/v4"@
        },
        SourceType::Gitea => if has_suffix(raw, "/api/v1"@) {
            raw
        } else {
            raw + "/api/v1"@
        },
        SourceType::Gitbucket => if has_part(raw, "/api/v3"@) {
            raw
        } else {
            raw + "/api/v3"@
        },
    }
}

/// The API base URL for a forge of this kind; `None` where a URL is missing.
pub open spec fn api_base(kind: SourceType, url: Option<Seq<char>>) -> Option<Seq<char>> {
    match url {
        Some(u) => Some(with_api_path(kind, trimmed_end(u, '/'))),
        None => match public_host(kind) {
            Some(host) => Some(with_api_path(kind, host)),
            None => None,
        },
    }
}

/// The text of an optional string.
pub open spec fn optional_text(s: Option<String>) -> Option<Seq<char>> {
    match s {
        Some(s) => Some(s@),
        None => None,
    }
}

impl Config {
    /// Compute the API base URL for the configured source forge, applying the
    /// per-forge suffix (e.g. `/api/v4` for GitLab) when the user gave a bare host.
    pub fn source_api_base(&self) -> (r: Result<String, ConfigError>)
        ensures
            match r {
                Ok(base) => api_base(self.source_type, optional_text(self.source_url)) == Some(base@),
                Err(e) => {
                    &&& api_base(self.source_type, optional_text(self.source_url)) is None
                    &&& e == ConfigError::SourceUrlRequired(self.source_type)
                },
            },
    {
        let raw = match &self.source_url {
            Some(u) => trim_end(u.as_str(), '/'),
            None => match self.source_type {
                SourceType::Github => "https://api.github.com".to_owned(),
                SourceType::Gitlab => "https://gitlab.com".to_owned(),
                other => return Err(ConfigError::SourceUrlRequired(other)),
            },
        };
        Ok(
            match self.source_type {
                SourceType::Github => raw,
                SourceType::Gitlab => {
                    if contains(raw.as_str(), "/api/v") {
                        raw
                    } else {
                        raw.concat("/api/v4")
                    }
                },
                SourceType::Gitea => {
                    if ends_with(raw.as_str(), "/api/v1") {
                        raw
                    } else {
                        raw.concat("/api/v1")
                    }
                },
                SourceType::Gitbucket => {
                    if contains(raw.as_str(), "/api/v3") {
                        raw
                    } else {
                        raw.concat("/api/v3")
                    }
                },
            },
        )
    }
}

/// Trimming leaves no slash at the end.
proof fn lemma_trimmed_end(s: Seq<char>, c: char)
    ensures
        trimmed_end(s, c).len() > 0 ==> trimmed_end(s, c).last() != c,
        trimmed_end(trimmed_end(s, c), c) == trimmed_end(s, c),
    decreases s.len(),
{
    if s.len() > 0 && s.last() == c {
        lemma_trimmed_end(s.drop_last(), c);
    }
}

/// The API base URL is settled: setting it as the source URL gives it back.
pub proof fn law_api_base_is_settled(kind: SourceType, url: Option<Seq<char>>)
    requires
        api_base(kind, url) is Some,
    ensures
        api_base(kind, Some(api_base(kind, url).unwrap())) == api_base(kind, url),
{
    reveal_strlit("https://api.github.com");
    reveal_strlit("https://gitlab.com");
    reveal_strlit("/api/v");
    reveal_strlit("/api/v4");
    reveal_strlit("/api/v1");
    reveal_strlit("/api/v3");
    let raw = match url {
        Some(u) => trimmed_end(u, '/'),
        None => public_host(kind).unwrap(),
    };
    match url {
        Some(u) => lemma_trimmed_end(u, '/'),
        None => {},
    }
    assert(raw.len() > 0 ==> raw.last() != '/');
    let base = with_api_path(kind, raw);
    assert(base.len() > 0 ==> base.last() != '/');
    assert(trimmed_end(base, '/') == base);
    match kind {
        SourceType::Gitlab => if !has_part(raw, "/api/v"@) {
            assert(base.subrange(raw.len() as int, raw.len() as int + 6) == "/api/v"@);
            assert(occurs_at(base, "/api/v"@, raw.len() as int));
        },
        SourceType::Gitea => if !has_suffix(raw, "/api/v1"@) {
            assert(base.skip(base.len() - 7) == "/api/v1"@);
        },
        SourceType::Gitbucket => if !has_part(raw, "/api/v3"@) {
            assert(base.subrange(raw.len() as int, raw.len() as int + 7) == "/api/v3"@);
            assert(occurs_at(base, "/api/v3"@, raw.len() as int));
        },
        SourceType::Github => {},
    }
}

/// A slash at the end of the source URL makes no difference.
pub proof fn law_api_base_ignores_trailing_slashes(kind: SourceType, url: Seq<char>)
    ensures
        api_base(kind, Some(url.push('/'))) == api_base(kind, Some(url)),
{
    assert(url.push('/').drop_last() == url);
}

/// The API base URL in full: the URL that is set, without the slashes at its end, or
/// else the public host; and behind it the path of the forge's API, unless it stands
/// there already. Only Gitea and GitBucket need a URL.
pub proof fn law_api_base_in_full(kind: SourceType, host: Seq<char>, slashes: nat)
    requires
        host.len() > 0 ==> host.last() != '/',
    ensures
        ({
            let url = host + Seq::new(slashes, |i: int| '/');
            api_base(kind, Some(url)) == Some(
                match kind {
                    SourceType::Github => host,
                    SourceType::Gitlab => if exists|a: Seq<char>, b: Seq<char>|
                        host == #[trigger] (a + "/api/v"@ + b) {
                        host
                    } else {
                        host + "/api/v4"@
                    },
                    SourceType::Gitea => if exists|a: Seq<char>| host == #[trigger] (a + "/api/v1"@) {
                        host
                    } else {
                        host + "/api/v1"@
                    },
                    SourceType::Gitbucket => if exists|a: Seq<char>, b: Seq<char>|
                        host == #[trigger] (a + "/api/v3"@ + b) {
                        host
                    } else {
                        host + "/api/v3"@
                    },
                },
            )
        }),
        api_base(SourceType::Github, None) == Some("https://api.github.com"@),
        api_base(SourceType::Gitlab, None) == Some("https://gitlab.com/api/v4"@),
        api_base(SourceType::Gitea, None) is None,
        api_base(SourceType::Gitbucket, None) is None,
{
    law_trimming_undoes_appending(host, '/', slashes);
    law_part_stands_between(host, "/api/v"@);
    law_part_stands_between(host, "/api/v3"@);
    law_suffix_is_what_stands_last(host, "/api/v1"@);
    let gitlab = "https://gitlab.com"@;
    reveal_strlit("https://gitlab.com");
    reveal_strlit("/api/v");
    reveal_strlit("/api/v4");
    reveal_strlit("https://gitlab.com/api/v4");
    assert(gitlab + "/api/v4"@ =~= "https://gitlab.com/api/v4"@);
    if has_part(gitlab, "/api/v"@) {
        let i = choose|i: int| occurs_at(gitlab, "/api/v"@, i);
        assert(gitlab.subrange(i, i + 6)[1] == 'a' && gitlab.subrange(i, i + 6)[0] == '/');
        assert(gitlab[i] == '/' && gitlab[i + 1] == 'a');
    }
}

/// Each kind of forge is called by its own name in messages.
pub proof fn law_forge_names(kind: SourceType)
    ensures
        forge_name(kind) == match kind {
            SourceType::Github => "Github"@,
            SourceType::Gitlab => "Gitlab"@,
            SourceType::Gitea => "Gitea"@,
            SourceType::Gitbucket => "Gitbucket"@,
        },
{
}

} // verus!
