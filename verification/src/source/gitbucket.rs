//! GitBucket (GitHub-compatible API under `/api/v3`).
use super::{
    auth_headers, described_repo, login_is, login_matches, optional_view, read_described_repo,
    two_list_listing, two_list_step, ListStage, ListStep, ListStepView, Listing, Source, SourceRepo,
};
use crate::config::{OwnerType, SourceType};
use crate::http::{pairs, PageRequest, PageRequestView};
use crate::json::Json;
use crate::text::{trim_end, trimmed_end};
use vstd::prelude::*;

verus! {

/// A list of GitBucket's API under `path`.
pub open spec fn page_list(src: Source, path: Seq<char>) -> PageRequestView {
    PageRequestView {
        url: trimmed_end(src.base_url@, '/') + path,
        headers: auth_headers(src.kind, src.token@),
        size_param: "per_page"@,
        extra: Seq::empty(),
        page_size: 100,
        max_pages: 100,
    }
}

/// What the listing of a GitBucket source does next.
pub open spec fn step(src: Source, ot: OwnerType, stage: ListStage) -> ListStepView {
    two_list_step(
        SourceType::Gitbucket,
        src.owner@,
        ot == OwnerType::Org,
        stage,
        page_list(src, "/orgs/"@ + src.owner@ + "/repos"@),
        page_list(src, "/user/repos"@),
        page_list(src, "/users/"@ + src.owner@ + "/repos"@),
    )
}

fn page_request(src: &Source, path: &str) -> (r: PageRequest)
    ensures
        r@ == page_list(*src, path@),
{
    let extra: Vec<(String, String)> = Vec::new();
    assert(pairs(extra@) =~= Seq::empty());
    PageRequest {
        url: trim_end(src.base_url.as_str(), '/').concat(path),
        headers: src.auth(),
        size_param: "per_page".to_owned(),
        extra,
        page_size: 100,
        max_pages: 100,
    }
}

/// List repos from GitBucket (GitHub-compatible API under `/api/v3`).
///
/// GitBucket only implements a subset of the GitHub API and its pagination
/// support varies by version; the de-dup in `Source::list_repos` guards against
/// a server that ignores `page`/`per_page`.
pub fn list(src: &Source, ot: OwnerType, stage: ListStage) -> (r: ListStep)
    ensures
        r@ == step(*src, ot, stage),
{
    match two_list_listing(SourceType::Gitbucket, src.owner.as_str(), ot == OwnerType::Org, stage) {
        Listing::Org => {
            let path = "/orgs/".to_owned().concat(src.owner.as_str()).concat("/repos");
            ListStep::Fetch(page_request(src, path.as_str()))
        },
        Listing::Account => ListStep::Fetch(page_request(src, "/user/repos")),
        Listing::User => {
            let path = "/users/".to_owned().concat(src.owner.as_str()).concat("/repos");
            ListStep::FetchFallback(page_request(src, path.as_str()))
        },
        Listing::Found(repos) => ListStep::Listed(repos),
    }
}

/// The login of an item's owner.
pub open spec fn login_of(v: Json) -> Option<Json> {
    match v.member("owner"@) {
        Some(o) => o.member("login"@),
        None => None,
    }
}

/// Whether an item belongs to `owner`.
pub open spec fn owned_by(v: Json, owner: Seq<char>) -> bool {
    login_is(login_of(v), owner)
}

/// Tests whether an item belongs to `owner`.
pub fn owner_matches(v: &Json, owner: &str) -> (r: bool)
    ensures
        r == owned_by(*v, owner@),
{
    match v.get("owner") {
        Some(o) => login_matches(o.get("login"), owner),
        None => false,
    }
}

/// Reads the repository that an item describes.
pub fn map_repo(v: &Json) -> (r: Option<SourceRepo>)
    ensures
        optional_view(r) == described_repo(*v),
{
    read_described_repo(v)
}

} // verus!
