//! GitLab (gitlab.com or self-hosted).
use super::{
    auth_headers, bool_member, encode_path, encoded, jbool, jstr, map_items, mapped, optional_view,
    str_member, ListStage, ListStep, ListStepView, Source, SourceRepo, SourceRepoView,
};
use crate::config::{OwnerType, SourceType};
use crate::http::{pair, pairs, PageRequest, PageRequestView};
use crate::json::Json;
use crate::text::{same, trim_end, trimmed_end};
use vstd::prelude::*;

verus! {

/// A list of GitLab's API under `path`.
pub open spec fn page_list(
    src: Source,
    path: Seq<char>,
    extra: Seq<(Seq<char>, Seq<char>)>,
) -> PageRequestView {
    PageRequestView {
        url: trimmed_end(src.base_url@, '/') + path,
        headers: auth_headers(src.kind, src.token@),
        size_param: "per_page"@,
        extra,
        page_size: 100,
        max_pages: 200,
    }
}

/// What the listing of a GitLab source does next.
pub open spec fn step(src: Source, ot: OwnerType, stage: ListStage) -> ListStepView {
    match stage {
        ListStage::Begin => ListStepView::Fetch(
            if ot == OwnerType::Org {
                page_list(
                    src,
                    "/groups/"@ + encoded(src.owner@) + "/projects"@,
                    seq![("include_subgroups"@, "true"@), ("with_shared"@, "false"@)],
                )
            } else {
                page_list(src, "/users/"@ + encoded(src.owner@) + "/projects"@, Seq::empty())
            },
        ),
        ListStage::First(items) | ListStage::Fallback(items) => ListStepView::Listed(
            mapped(SourceType::Gitlab, items@),
        ),
    }
}

fn page_request(src: &Source, path: &str, extra: Vec<(String, String)>) -> (r: PageRequest)
    ensures
        r@ == page_list(*src, path@, pairs(extra@)),
{
    PageRequest {
        url: trim_end(src.base_url.as_str(), '/').concat(path),
        headers: src.auth(),
        size_param: "per_page".to_owned(),
        extra,
        page_size: 100,
        max_pages: 200,
    }
}

/// List projects from GitLab (gitlab.com or self-hosted).
///
/// - Group: `GET /groups/{id}/projects?include_subgroups=true&with_shared=false`.
/// - User:  `GET /users/{id}/projects`.
pub fn list(src: &Source, ot: OwnerType, stage: ListStage) -> (r: ListStep)
    ensures
        r@ == step(*src, ot, stage),
{
    match stage {
        ListStage::Begin => {
            let mut extra: Vec<(String, String)> = Vec::new();
            let owner = encode_path(src.owner.as_str());
            if ot == OwnerType::Org {
                extra.push(pair("include_subgroups", "true"));
                extra.push(pair("with_shared", "false"));
                assert(pairs(extra@) =~= seq![
                    ("include_subgroups"@, "true"@),
                    ("with_shared"@, "false"@),
                ]);
                let path = "/groups/".to_owned().concat(owner.as_str()).concat("/projects");
                ListStep::Fetch(page_request(src, path.as_str(), extra))
            } else {
                assert(pairs(extra@) =~= Seq::empty());
                let path = "/users/".to_owned().concat(owner.as_str()).concat("/projects");
                ListStep::Fetch(page_request(src, path.as_str(), extra))
            }
        },
        ListStage::First(items) => ListStep::Listed(map_items(SourceType::Gitlab, &items)),
        ListStage::Fallback(items) => ListStep::Listed(map_items(SourceType::Gitlab, &items)),
    }
}

/// The repository that a project makes: its slug is the name, and it counts as
/// private unless it says that it is public.
pub open spec fn project(v: Json) -> Option<SourceRepoView> {
    match (str_member(v, "path"@), str_member(v, "http_url_to_repo"@)) {
        (Some(name), Some(clone_url)) => Some(
            SourceRepoView {
                name,
                clone_url,
                private: str_member(v, "visibility"@) != Some("public"@),
                fork: match v.member("forked_from_project"@) {
                    Some(origin) => !(origin is Null),
                    None => false,
                },
                archived: bool_member(v, "archived"@),
                description: str_member(v, "description"@),
            },
        ),
        _ => None,
    }
}

/// Reads the repository that a project makes.
pub fn map_repo(v: &Json) -> (r: Option<SourceRepo>)
    ensures
        optional_view(r) == project(*v),
{
    // repo slug, not the display "name"
    let name = match jstr(v, "path") {
        Some(name) => name,
        None => return None,
    };
    let clone_url = match jstr(v, "http_url_to_repo") {
        Some(clone_url) => clone_url,
        None => return None,
    };
    let private = match jstr(v, "visibility") {
        Some(visibility) => !same(visibility.as_str(), "public"),
        None => true,
    };
    let fork = match v.get("forked_from_project") {
        Some(origin) => !origin.is_null(),
        None => false,
    };
    Some(
        SourceRepo {
            name,
            clone_url,
            private,
            fork,
            archived: jbool(v, "archived"),
            description: jstr(v, "description"),
        },
    )
}

} // verus!
