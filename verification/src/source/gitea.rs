//! Gitea or Forgejo as a source.
use super::{
    auth_headers, described_repo, login_is, login_matches, optional_view, read_described_repo,
    two_list_listing, two_list_step, ListStage, ListStep, ListStepView, Listing, Source, SourceRepo,
};
use crate::config::{OwnerType, SourceType};
use crate::http::{pairs, PageRequest, PageRequestView};
use crate::json::Json;
use crate::text::{trim_end, trimmed_end};
use vstd::prelude::*;

verus! {

/// A list of Gitea's API under `path`.
pub open spec fn page_list(src: Source, path: Seq<char>) -> PageRequestView {
    PageRequestView {
        url: trimmed_end(src.base_url@, '/') + path,
        headers: auth_headers(src.kind, src.token@),
        size_param: "limit"@,
        extra: Seq::empty(),
        page_size: 50,
        max_pages: 500,
    }
}

/// What the listing of a Gitea source does next.
pub open spec fn step(src: Source, ot: OwnerType, stage: ListStage) -> ListStepView {
    two_list_step(
        SourceType::Gitea,
        src.owner@,
        ot == OwnerType::Org,
        stage,
        page_list(src, "/orgs/"@ + src.owner@ + "/repos"@),
        page_list(src, "/user/repos"@),
        page_list(src, "/users/"@ + src.owner@ + "/repos"@),
    )
}

fn page_request(src: &Source, path: &str) -> (r: PageRequest)
    ensures
        r@ == page_list(*src, path@),
{
    let extra: Vec<(String, String)> = Vec::new();
    assert(pairs(extra@) =~= Seq::empty());
    PageRequest {
        url: trim_end(src.base_url.as_str(), '/').concat(path),
        headers: src.auth(),
        size_param: "limit".to_owned(),
        extra,
        page_size: 50, // Gitea caps page size (MAX_RESPONSE_ITEMS, default 50)
        max_pages: 500,
    }
}

/// List repos from a Gitea/Forgejo source.
///
/// - Org:  `GET /orgs/{org}/repos`.
/// - User: `GET /user/repos` (authenticated, incl. private) filtered to the owner;
///   falls back to that user's public repos for a different user.
pub fn list(src: &Source, ot: OwnerType, stage: ListStage) -> (r: ListStep)
    ensures
        r@ == step(*src, ot, stage),
{
    match two_list_listing(SourceType::Gitea, src.owner.as_str(), ot == OwnerType::Org, stage) {
        Listing::Org => {
            let path = "/orgs/".to_owned().concat(src.owner.as_str()).concat("/repos");
            ListStep::Fetch(page_request(src, path.as_str()))
        },
        Listing::Account => ListStep::Fetch(page_request(src, "/user/repos")),
        Listing::User => {
            let path = "/users/".to_owned().concat(src.owner.as_str()).concat("/repos");
            ListStep::FetchFallback(page_request(src, path.as_str()))
        },
        Listing::Found(repos) => ListStep::Listed(repos),
    }
}

/// The login of an item's owner, or the user name where no login is given.
pub open spec fn login_of(v: Json) -> Option<Json> {
    match v.member("owner"@) {
        Some(o) => match o.member("login"@) {
            Some(login) => Some(login),
            None => o.member("username"@),
        },
        None => None,
    }
}

/// Whether an item belongs to `owner`.
pub open spec fn owned_by(v: Json, owner: Seq<char>) -> bool {
    login_is(login_of(v), owner)
}

/// Tests whether an item belongs to `owner`.
pub fn owner_matches(v: &Json, owner: &str) -> (r: bool)
    ensures
        r == owned_by(*v, owner@),
{
    match v.get("owner") {
        Some(o) => match o.get("login") {
            Some(login) => login_matches(Some(login), owner),
            None => login_matches(o.get("username"), owner),
        },
        None => false,
    }
}

/// Reads the repository that an item describes.
pub fn map_repo(v: &Json) -> (r: Option<SourceRepo>)
    ensures
        optional_view(r) == described_repo(*v),
{
    read_described_repo(v)
}

} // verus!
