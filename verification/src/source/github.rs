//! GitHub (or GitHub Enterprise).
use super::{
    auth_headers, described_repo, login_is, login_matches, optional_view, read_described_repo,
    two_list_listing, two_list_step, ListStage, ListStep, ListStepView, Listing, Source, SourceRepo,
};
use crate::config::{OwnerType, SourceType};
use crate::http::{pair, pairs, PageRequest, PageRequestView};
use crate::json::Json;
use crate::text::{trim_end, trimmed_end};
use vstd::prelude::*;

verus! {

/// A list of GitHub's API under `path`.
pub open spec fn page_list(
    src: Source,
    path: Seq<char>,
    extra: Seq<(Seq<char>, Seq<char>)>,
) -> PageRequestView {
    PageRequestView {
        url: trimmed_end(src.base_url@, '/') + path,
        headers: auth_headers(src.kind, src.token@),
        size_param: "per_page"@,
        extra,
        page_size: 100,
        max_pages: 100,
    }
}

/// What the listing of a GitHub source does next.
pub open spec fn step(src: Source, ot: OwnerType, stage: ListStage) -> ListStepView {
    two_list_step(
        SourceType::Github,
        src.owner@,
        ot == OwnerType::Org,
        stage,
        page_list(src, "/orgs/"@ + src.owner@ + "/repos"@, seq![("type"@, "all"@)]),
        page_list(
            src,
            "/user/repos"@,
            seq![("affiliation"@, "owner"@), ("visibility"@, "all"@)],
        ),
        page_list(src, "/users/"@ + src.owner@ + "/repos"@, seq![("type"@, "all"@)]),
    )
}

fn page_request(src: &Source, path: &str, extra: Vec<(String, String)>) -> (r: PageRequest)
    ensures
        r@ == page_list(*src, path@, pairs(extra@)),
{
    PageRequest {
        url: trim_end(src.base_url.as_str(), '/').concat(path),
        headers: src.auth(),
        size_param: "per_page".to_owned(),
        extra,
        page_size: 100,
        max_pages: 100,
    }
}

/// List repos from GitHub (or GitHub Enterprise via `GMS_SOURCE_URL`).
///
/// - Org: `GET /orgs/{org}/repos?type=all` (includes private if the token can see them).
/// - User: `GET /user/repos` (the token owner's own repos, incl. private), filtered
///   to the owner; falls back to that user's public repos for a different user.
pub fn list(src: &Source, ot: OwnerType, stage: ListStage) -> (r: ListStep)
    ensures
        r@ == step(*src, ot, stage),
{
    let mut extra: Vec<(String, String)> = Vec::new();
    match two_list_listing(SourceType::Github, src.owner.as_str(), ot == OwnerType::Org, stage) {
        Listing::Org => {
            extra.push(pair("type", "all"));
            assert(pairs(extra@) =~= seq![("type"@, "all"@)]);
            let path = "/orgs/".to_owned().concat(src.owner.as_str()).concat("/repos");
            ListStep::Fetch(page_request(src, path.as_str(), extra))
        },
        Listing::Account => {
            extra.push(pair("affiliation", "owner"));
            extra.push(pair("visibility", "all"));
            assert(pairs(extra@) =~= seq![("affiliation"@, "owner"@), ("visibility"@, "all"@)]);
            ListStep::Fetch(page_request(src, "/user/repos", extra))
        },
        Listing::User => {
            // owner is not the authenticated account: list that user's public repos
            extra.push(pair("type", "all"));
            assert(pairs(extra@) =~= seq![("type"@, "all"@)]);
            let path = "/users/".to_owned().concat(src.owner.as_str()).concat("/repos");
            ListStep::FetchFallback(page_request(src, path.as_str(), extra))
        },
        Listing::Found(repos) => ListStep::Listed(repos),
    }
}

/// The login of an item's owner.
pub open spec fn login_of(v: Json) -> Option<Json> {
    match v.member("owner"@) {
        Some(o) => o.member("login"@),
        None => None,
    }
}

/// Whether an item belongs to `owner`.
pub open spec fn owned_by(v: Json, owner: Seq<char>) -> bool {
    login_is(login_of(v), owner)
}

/// Tests whether an item belongs to `owner`.
pub fn owner_matches(v: &Json, owner: &str) -> (r: bool)
    ensures
        r == owned_by(*v, owner@),
{
    match v.get("owner") {
        Some(o) => login_matches(o.get("login"), owner),
        None => false,
    }
}

/// Reads the repository that an item describes.
pub fn map_repo(v: &Json) -> (r: Option<SourceRepo>)
    ensures
        optional_view(r) == described_repo(*v),
{
    read_described_repo(v)
}

} // verus!
