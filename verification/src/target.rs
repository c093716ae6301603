//! The Gitea/Forgejo instance that holds the mirrors: what is asked of it, and how
//! its answers are read.
use crate::config::{optional_text, OwnerType};
use crate::http::{
    is_success, law_request_is_its_fields, pair, pairs, success_code, Method, PageRequest, PageRequestView, Request,
};
use crate::json::{last_member, law_last_member_counts, Json};
use crate::source::{jstr, str_member};
use crate::text::{law_trimming_undoes_appending, trim_end, trimmed_end};
use vstd::prelude::*;

verus! {

/// The local Gitea/Forgejo instance that holds the mirrors.
#[derive(Debug)]
pub struct Target {
    /// scheme://host (no trailing slash)
    pub base: String,
    /// base + /api/v1
    pub api: String,
    pub token: String,
    pub owner: String,
}

/// Subset of the Gitea/Forgejo `Repository` object we care about.
#[derive(Debug, PartialEq, Eq)]
pub struct Repo {
    pub name: String,
    pub mirror: bool,
    pub original_url: String,
    pub private: bool,
}

/// What a repository on the target holds.
pub ghost struct RepoView {
    pub name: Seq<char>,
    pub mirror: bool,
    pub original_url: Seq<char>,
    pub private: bool,
}

impl View for Repo {
    type V = RepoView;

    open spec fn view(&self) -> RepoView {
        RepoView {
            name: self.name@,
            mirror: self.mirror,
            original_url: self.original_url@,
            private: self.private,
        }
    }
}

/// What a list of repositories on the target holds.
pub open spec fn repo_views(repos: Seq<Repo>) -> Seq<RepoView> {
    repos.map_values(|r: Repo| r@)
}

/// What the target instance supports, detected at startup.
#[derive(Debug, Default, Clone)]
pub struct Capabilities {
    pub version: String,
    pub is_forgejo: bool,
    /// Whether `PATCH /repos/{owner}/{repo}` accepts `mirror_token` (Gitea >= 1.27).
    pub supports_pull_mirror_patch: bool,
    pub owner_is_org: bool,
}

/// What came back of a probe: the status code, and the JSON document in the body where
/// there is one.
#[derive(Debug, PartialEq, Eq)]
pub struct Answer {
    pub code: u16,
    pub document: Option<Json>,
}

/// Whether a probe was answered with success.
pub open spec fn is_found(answer: Option<Answer>) -> bool {
    answer matches Some(a) && success_code(a.code)
}

/// The document that a probe brought; a probe that failed brings none, whatever stands
/// in the body of its answer.
pub open spec fn brought(answer: Option<Answer>) -> Option<Json> {
    match answer {
        Some(a) => if success_code(a.code) {
            a.document
        } else {
            None
        },
        None => None,
    }
}

/// A text that may be left out: then it is empty. Any other value than a string is
/// an error.
pub open spec fn text_or_empty(v: Option<Json>) -> Option<Seq<char>> {
    match v {
        Some(x) => x.text(),
        None => Some(Seq::empty()),
    }
}

/// A truth value that may be left out: then it is false. Any other value than a
/// boolean is an error.
pub open spec fn truth_or_false(v: Option<Json>) -> Option<bool> {
    match v {
        Some(x) => x.truth(),
        None => Some(false),
    }
}

/// The item of a list at `i`, where it reaches that far.
pub open spec fn item_at(items: Seq<Json>, i: int) -> Option<Json> {
    if 0 <= i < items.len() {
        Some(items[i])
    } else {
        None
    }
}

/// The fields of a repository put together; its name must be there, and none may be
/// in error.
pub open spec fn repo_of_fields(
    name: Option<Json>,
    mirror: Option<Json>,
    original_url: Option<Json>,
    private: Option<Json>,
) -> Option<RepoView> {
    match (
        name,
        truth_or_false(mirror),
        text_or_empty(original_url),
        truth_or_false(private),
    ) {
        (Some(name), Some(mirror), Some(original_url), Some(private)) => match name.text() {
            Some(name) => Some(RepoView { name, mirror, original_url, private }),
            None => None,
        },
        _ => None,
    }
}

/// The repository that a JSON value describes: an object with these members, or the
/// list of their values in this order.
pub open spec fn described(v: Json) -> Option<RepoView> {
    match v {
        Json::Object(_) => repo_of_fields(
            v.member("name"@),
            v.member("mirror"@),
            v.member("original_url"@),
            v.member("private"@),
        ),
        Json::List(items) => if items@.len() <= 4 {
            repo_of_fields(
                item_at(items@, 0),
                item_at(items@, 1),
                item_at(items@, 2),
                item_at(items@, 3),
            )
        } else {
            None
        },
        _ => None,
    }
}

/// The repositories that the items describe, in their order; items that describe
/// none are passed over.
pub open spec fn all_described(items: Seq<Json>) -> Seq<RepoView>
    decreases items.len(),
{
    if items.len() == 0 {
        Seq::empty()
    } else {
        match described(items.last()) {
            Some(repo) => all_described(items.drop_last()).push(repo),
            None => all_described(items.drop_last()),
        }
    }
}

spec fn referred(v: Option<&Json>) -> Option<Json> {
    match v {
        Some(x) => Some(*x),
        None => None,
    }
}

fn read_text(v: Option<&Json>) -> (r: Option<String>)
    ensures
        optional_text(r) == text_or_empty(referred(v)),
{
    match v {
        Some(x) => match x.as_str() {
            Some(s) => Some(s.to_owned()),
            None => None,
        },
        None => Some(String::new()),
    }
}

fn read_truth(v: Option<&Json>) -> (r: Option<bool>)
    ensures
        r == truth_or_false(referred(v)),
{
    match v {
        Some(x) => x.as_bool(),
        None => Some(false),
    }
}

fn read_fields(
    name: Option<&Json>,
    mirror: Option<&Json>,
    original_url: Option<&Json>,
    private: Option<&Json>,
) -> (r: Option<Repo>)
    ensures
        match r {
            Some(repo) => repo_of_fields(
                referred(name),
                referred(mirror),
                referred(original_url),
                referred(private),
            ) == Some(repo@),
            None => repo_of_fields(
                referred(name),
                referred(mirror),
                referred(original_url),
                referred(private),
            ) is None,
        },
{
    let name = match name {
        Some(x) => match x.as_str() {
            Some(s) => s.to_owned(),
            None => return None,
        },
        None => return None,
    };
    let mirror = match read_truth(mirror) {
        Some(b) => b,
        None => return None,
    };
    let original_url = match read_text(original_url) {
        Some(s) => s,
        None => return None,
    };
    let private = match read_truth(private) {
        Some(b) => b,
        None => return None,
    };
    Some(Repo { name, mirror, original_url, private })
}

fn nth(items: &Vec<Json>, i: usize) -> (r: Option<&Json>)
    ensures
        referred(r) == item_at(items@, i as int),
{
    if i < items.len() {
        Some(&items[i])
    } else {
        None
    }
}

impl Repo {
    /// Reads the repository that a JSON value describes. Only the name must be there.
    pub fn from_json(v: &Json) -> (r: Option<Repo>)
        ensures
            match r {
                Some(repo) => described(*v) == Some(repo@),
                None => described(*v) is None,
            },
    {
        match v {
            Json::Object(_) => read_fields(
                v.get("name"),
                v.get("mirror"),
                v.get("original_url"),
                v.get("private"),
            ),
            Json::List(items) => {
                if items.len() > 4 {
                    return None;
                }
                read_fields(nth(items, 0), nth(items, 1), nth(items, 2), nth(items, 3))
            },
            _ => None,
        }
    }
}

/// The header by which a request to the target is authenticated.
pub open spec fn token_header(token: Seq<char>) -> Seq<(Seq<char>, Seq<char>)> {
    seq![("Authorization"@, "token "@ + token)]
}

/// A value in the body of a request.
pub ghost enum FieldView {
    Text(Seq<char>),
    Truth(bool),
}

/// Whether a JSON value is this text or truth value.
pub open spec fn is_field(v: Json, field: FieldView) -> bool {
    match field {
        FieldView::Text(s) => v.text() == Some(s),
        FieldView::Truth(b) => v.truth() == Some(b),
    }
}

/// Whether a body is the object with exactly these members.
pub open spec fn body_is(body: Option<Json>, fields: Seq<(Seq<char>, FieldView)>) -> bool {
    body matches Some(Json::Object(members)) && members@.len() == fields.len() && forall|i: int|
        #![trigger members@[i]]
        #![trigger fields[i]]
        0 <= i < fields.len() ==> members@[i].0@ == fields[i].0 && is_field(members@[i].1, fields[i].1)
}

/// The members of a migration request.
pub open spec fn migration_fields(
    clone_addr: Seq<char>,
    name: Seq<char>,
    owner: Seq<char>,
    service: Seq<char>,
    token: Seq<char>,
    interval: Seq<char>,
    private: bool,
    description: Option<Seq<char>>,
) -> Seq<(Seq<char>, FieldView)> {
    seq![
        ("clone_addr"@, FieldView::Text(clone_addr)),
        ("repo_name"@, FieldView::Text(name)),
        ("repo_owner"@, FieldView::Text(owner)),
        ("service"@, FieldView::Text(service)),
        ("mirror"@, FieldView::Truth(true)),
        ("mirror_interval"@, FieldView::Text(interval)),
        ("auth_token"@, FieldView::Text(token)),
        ("private"@, FieldView::Truth(private)),
        (
            "description"@,
            FieldView::Text(
                match description {
                    Some(d) => d,
                    None => Seq::empty(),
                },
            ),
        ),
        ("wiki"@, FieldView::Truth(false)),
        ("lfs"@, FieldView::Truth(false)),
    ]
}

/// Whether a swagger spec declares the `mirror_token` field on `EditRepoOption`.
pub open spec fn declares_mirror_token(spec_doc: Json) -> bool {
    match spec_doc.member("definitions"@) {
        Some(d) => match d.member("EditRepoOption"@) {
            Some(e) => match e.member("properties"@) {
                Some(p) => p.member("mirror_token"@) is Some,
                None => false,
            },
            None => false,
        },
        None => false,
    }
}

/// Whether a swagger spec declares the `mirror_token` field on `EditRepoOption`.
pub fn swagger_has_mirror_token(spec_doc: &Json) -> (r: bool)
    ensures
        r == declares_mirror_token(*spec_doc),
{
    match spec_doc.get("definitions") {
        Some(d) => match d.get("EditRepoOption") {
            Some(e) => match e.get("properties") {
                Some(p) => p.get("mirror_token").is_some(),
                None => false,
            },
            None => false,
        },
        None => false,
    }
}

fn text_field(name: &str, value: &str) -> (r: (String, Json))
    ensures
        r.0@ == name@,
        is_field(r.1, FieldView::Text(value@)),
{
    (name.to_owned(), Json::Text(value.to_owned()))
}

fn truth_field(name: &str, value: bool) -> (r: (String, Json))
    ensures
        r.0@ == name@,
        is_field(r.1, FieldView::Truth(value)),
{
    (name.to_owned(), Json::Bool(value))
}

fn was_found(answer: &Option<Answer>) -> (r: bool)
    ensures
        r == is_found(*answer),
{
    match answer {
        Some(a) => is_success(a.code),
        None => false,
    }
}

fn document_of(answer: &Option<Answer>) -> (r: Option<&Json>)
    ensures
        referred(r) == brought(*answer),
{
    match answer {
        Some(a) => if is_success(a.code) {
            a.document.as_ref()
        } else {
            None
        },
        None => None,
    }
}

impl Target {
    /// Whether this is the instance at `url`, reached by `token`, with the mirrors
    /// under `owner`.
    pub open spec fn is_at(self, url: Seq<char>, token: Seq<char>, owner: Seq<char>) -> bool {
        &&& self.base@ == trimmed_end(url, '/')
        &&& self.api@ == trimmed_end(url, '/') + "/api/v1"@
        &&& self.token@ == token
        &&& self.owner@ == owner
    }

    /// The instance at `url`, reached by `token`, with the mirrors under `owner`.
    pub fn new(url: &str, token: &str, owner: &str) -> (r: Target)
        ensures
            r.is_at(url@, token@, owner@),
    {
        let base = trim_end(url, '/');
        let api = base.clone().concat("/api/v1");
        Target { base, api, token: token.to_owned(), owner: owner.to_owned() }
    }

    /// The header by which a request is authenticated.
    pub fn auth(&self) -> (r: Vec<(String, String)>)
        ensures
            pairs(r@) == token_header(self.token@),
    {
        let mut r: Vec<(String, String)> = Vec::new();
        let token = "token ".to_owned().concat(self.token.as_str());
        r.push(pair("Authorization", token.as_str()));
        assert(pairs(r@) =~= token_header(self.token@));
        r
    }

    /// Whether `r` is the request without a query to `url`, with or without the token.
    pub open spec fn asks(self, r: Request, method: Method, url: Seq<char>, with_token: bool) -> bool {
        &&& r@.method == method
        &&& r@.url == url
        &&& r@.headers == if with_token {
            token_header(self.token@)
        } else {
            Seq::empty()
        }
        &&& r@.query == Seq::<(Seq<char>, Seq<char>)>::empty()
    }

    fn request(&self, method: Method, url: String, with_token: bool, body: Option<Json>) -> (r: Request)
        ensures
            self.asks(r, method, url@, with_token),
            r.body == body,
    {
        let headers = if with_token {
            self.auth()
        } else {
            Vec::new()
        };
        let query: Vec<(String, String)> = Vec::new();
        assert(pairs(query@) =~= Seq::empty());
        assert(!with_token ==> pairs(headers@) =~= Seq::empty());
        Request { method, url, headers, query, body }
    }

    /// The request for the version of the instance.
    pub fn version_probe(&self) -> (r: Request)
        ensures
            self.asks(r, Method::Get, self.api@ + "/version"@, true),
            r.body is None,
    {
        self.request(Method::Get, self.api.clone().concat("/version"), true, None)
    }

    /// The request that only Forgejo answers: it exposes a dedicated namespace.
    pub fn forgejo_probe(&self) -> (r: Request)
        ensures
            self.asks(r, Method::Get, self.base@ + "/api/forgejo/v1/version"@, false),
            r.body is None,
    {
        self.request(Method::Get, self.base.clone().concat("/api/forgejo/v1/version"), false, None)
    }

    /// The request for the swagger spec, which shows whether mirrors can be patched.
    pub fn probe_patch_support(&self) -> (r: Request)
        ensures
            self.asks(r, Method::Get, self.base@ + "/swagger.v1.json"@, false),
            r.body is None,
    {
        self.request(Method::Get, self.base.clone().concat("/swagger.v1.json"), false, None)
    }

    /// The request that is answered only where the owner is an organization.
    pub fn org_probe(&self) -> (r: Request)
        ensures
            self.asks(r, Method::Get, self.api@ + "/orgs/"@ + self.owner@, true),
            r.body is None,
    {
        let url = self.api.clone().concat("/orgs/").concat(self.owner.as_str());
        self.request(Method::Get, url, true, None)
    }

    /// Puts together what the probes of the instance told; `None` stands for a probe
    /// without an answer. Best-effort: any failed probe falls back to the safe default.
    pub fn detect(
        configured: OwnerType,
        version: &Option<Answer>,
        forgejo: &Option<Answer>,
        swagger: &Option<Answer>,
        org: &Option<Answer>,
    ) -> (caps: Capabilities)
        ensures
            caps.version@ == match brought(*version) {
                Some(doc) => match str_member(doc, "version"@) {
                    Some(s) => s,
                    None => Seq::empty(),
                },
                None => Seq::empty(),
            },
            caps.is_forgejo == is_found(*forgejo),
            caps.supports_pull_mirror_patch == match brought(*swagger) {
                Some(doc) => declares_mirror_token(doc),
                None => false,
            },
            caps.owner_is_org == match configured {
                OwnerType::Org => true,
                OwnerType::User => false,
                OwnerType::Auto => is_found(*org),
            },
            caps.version@ == told_version(*version),
            caps.supports_pull_mirror_patch == told_patch_support(*swagger),
            caps.owner_is_org == told_org(configured, *org),
    {
        let version = match document_of(version) {
            Some(doc) => match jstr(doc, "version") {
                Some(s) => s,
                None => String::new(),
            },
            None => String::new(),
        };
        let supports_pull_mirror_patch = match document_of(swagger) {
            Some(doc) => swagger_has_mirror_token(doc),
            None => false,
        };
        let owner_is_org = match configured {
            OwnerType::Org => true,
            OwnerType::User => false,
            OwnerType::Auto => was_found(org),
        };
        Capabilities {
            version,
            is_forgejo: was_found(forgejo),
            supports_pull_mirror_patch,
            owner_is_org,
        }
    }

    /// The list of all repos under the configured owner.
    pub fn list_repos(&self, owner_is_org: bool) -> (r: PageRequest)
        ensures
            r@ == (PageRequestView {
                url: self.api@ + "/"@ + (if owner_is_org {
                    "orgs"@
                } else {
                    "users"@
                }) + "/"@ + self.owner@ + "/repos"@,
                headers: token_header(self.token@),
                size_param: "limit"@,
                extra: Seq::empty(),
                page_size: 50,
                max_pages: 500,
            }),
    {
        let path = if owner_is_org {
            "orgs"
        } else {
            "users"
        };
        let url = self.api.clone().concat("/").concat(path).concat("/").concat(
            self.owner.as_str(),
        ).concat("/repos");
        let extra: Vec<(String, String)> = Vec::new();
        assert(pairs(extra@) =~= Seq::empty());
        PageRequest {
            url,
            headers: self.auth(),
            size_param: "limit".to_owned(),
            extra,
            page_size: 50,
            max_pages: 500,
        }
    }

    /// Reads the repositories that the items of the list describe.
    pub fn listed_repos(items: &Vec<Json>) -> (r: Vec<Repo>)
        ensures
            repo_views(r@) == all_described(items@),
    {
        let mut r: Vec<Repo> = Vec::new();
        let mut i: usize = 0;
        assert(repo_views(r@) =~= Seq::empty());
        while i < items.len()
            invariant
                i <= items@.len(),
                repo_views(r@) == all_described(items@.take(i as int)),
            decreases items@.len() - i,
        {
            assert(items@.take(i + 1).drop_last() == items@.take(i as int));
            let ghost start = repo_views(r@);
            match Repo::from_json(&items[i]) {
                Some(repo) => {
                    r.push(repo);
                    assert(repo_views(r@) =~= start.push(repo@));
                },
                None => {},
            }
            i = i + 1;
        }
        assert(items@.take(i as int) == items@);
        r
    }

    /// Create a pull mirror via `POST /repos/migrate`.
    pub fn migrate(
        &self,
        clone_addr: &str,
        name: &str,
        service: &str,
        token: &str,
        interval: &str,
        private: bool,
        description: &Option<String>,
    ) -> (r: Request)
        ensures
            self.asks(r, Method::Post, self.api@ + "/repos/migrate"@, true),
            body_is(
                r.body,
                migration_fields(
                    clone_addr@,
                    name@,
                    self.owner@,
                    service@,
                    token@,
                    interval@,
                    private,
                    optional_text(*description),
                ),
            ),
    {
        let description = match description {
            Some(d) => d.clone(),
            None => String::new(),
        };
        let mut body: Vec<(String, Json)> = Vec::new();
        body.push(text_field("clone_addr", clone_addr));
        body.push(text_field("repo_name", name));
        body.push(text_field("repo_owner", self.owner.as_str()));
        body.push(text_field("service", service));
        body.push(truth_field("mirror", true));
        body.push(text_field("mirror_interval", interval));
        body.push(text_field("auth_token", token));
        body.push(truth_field("private", private));
        body.push(text_field("description", description.as_str()));
        body.push(truth_field("wiki", false));
        body.push(truth_field("lfs", false));
        self.request(
            Method::Post,
            self.api.clone().concat("/repos/migrate"),
            true,
            Some(Json::Object(body)),
        )
    }

    /// The URL of a repository under the owner.
    pub open spec fn repo_url(self, name: Seq<char>) -> Seq<char> {
        self.api@ + "/repos/"@ + self.owner@ + "/"@ + name
    }

    fn url_of(&self, name: &str) -> (r: String)
        ensures
            r@ == self.repo_url(name@),
    {
        self.api.clone().concat("/repos/").concat(self.owner.as_str()).concat("/").concat(name)
    }

    /// Delete a repository.
    pub fn delete(&self, name: &str) -> (r: Request)
        ensures
            self.asks(r, Method::Delete, self.repo_url(name@), true),
            r.body is None,
    {
        self.request(Method::Delete, self.url_of(name), true, None)
    }

    /// Update an existing pull mirror's source token (Gitea >= 1.27 only).
    pub fn patch_mirror_token(&self, name: &str, token: &str) -> (r: Request)
        ensures
            self.asks(r, Method::Patch, self.repo_url(name@), true),
            body_is(r.body, seq![("mirror_token"@, FieldView::Text(token@))]),
    {
        let mut body: Vec<(String, Json)> = Vec::new();
        body.push(text_field("mirror_token", token));
        self.request(Method::Patch, self.url_of(name), true, Some(Json::Object(body)))
    }

    /// Trigger an immediate (async) mirror sync.
    pub fn trigger_sync(&self, name: &str) -> (r: Request)
        ensures
            self.asks(r, Method::Post, self.repo_url(name@) + "/mirror-sync"@, true),
            r.body is None,
    {
        self.request(Method::Post, self.url_of(name).concat("/mirror-sync"), true, None)
    }
}

/// Whether a truth value can be read: it is a boolean or left out.
pub open spec fn may_be_truth(v: Option<Json>) -> bool {
    v is None || v == Some(Json::Bool(true)) || v == Some(Json::Bool(false))
}

/// What is read of an object that describes a repository on the target. It is read
/// exactly where its name is a text, the other text is one or left out, and the marks
/// are booleans or left out. The repository is a mirror exactly where the object says
/// so, and private exactly where it says so, whatever else it says.
pub proof fn law_object_fields(v: Json)
    requires
        v is Object,
    ensures
        described(v) is Some <==> {
            &&& v.member("name"@) matches Some(Json::Text(_))
            &&& v.member("original_url"@) is None || (v.member("original_url"@) matches Some(Json::Text(_)))
            &&& may_be_truth(v.member("mirror"@))
            &&& may_be_truth(v.member("private"@))
        },
        described(v) matches Some(r) ==> {
            &&& r.mirror <==> v.member("mirror"@) == Some(Json::Bool(true))
            &&& r.private <==> v.member("private"@) == Some(Json::Bool(true))
            &&& v.member("name"@) matches Some(Json::Text(s)) && r.name == s@
            &&& v.member("original_url"@) matches Some(Json::Text(s)) ==> r.original_url == s@
            &&& v.member("original_url"@) is None ==> r.original_url.len() == 0
        },
{
    let m = v.member("mirror"@);
    let p = v.member("private"@);
    match m {
        Some(Json::Bool(b)) => {
            assert(b || !b);
        },
        _ => {},
    }
    match p {
        Some(Json::Bool(b)) => {
            assert(b || !b);
        },
        _ => {},
    }
}

/// What is read of a list that describes a repository: the name first, and after it, as
/// far as the list goes, whether it is a mirror, where it came from, and whether it is
/// private.
pub proof fn law_list_fields(items: Vec<Json>)
    ensures
        described(Json::List(items)) is Some <==> {
            &&& 1 <= items@.len() <= 4
            &&& items@[0] is Text
            &&& items@.len() > 1 ==> items@[1] is Bool
            &&& items@.len() > 2 ==> items@[2] is Text
            &&& items@.len() > 3 ==> items@[3] is Bool
        },
        described(Json::List(items)) matches Some(r) ==> {
            &&& items@[0] matches Json::Text(s) && r.name == s@
            &&& r.mirror <==> items@.len() > 1 && items@[1] == Json::Bool(true)
            &&& items@.len() > 2 ==> (items@[2] matches Json::Text(s) && r.original_url == s@)
            &&& items@.len() <= 2 ==> r.original_url.len() == 0
            &&& r.private <==> items@.len() > 3 && items@[3] == Json::Bool(true)
        },
{
}

/// No other value describes a repository.
pub proof fn law_only_objects_and_lists_describe(v: Json)
    requires
        !(v is Object),
        !(v is List),
    ensures
        described(v) is None,
{
}

/// Two objects that agree in the member of a field agree in the field, whatever else
/// they hold.
pub proof fn law_target_fields_do_not_mix(v: Json, w: Json)
    requires
        v is Object,
        w is Object,
        described(v) is Some,
        described(w) is Some,
    ensures
        v.member("mirror"@) == w.member("mirror"@) ==> described(v).unwrap().mirror == described(
            w,
        ).unwrap().mirror,
        v.member("private"@) == w.member("private"@) ==> described(v).unwrap().private == described(
            w,
        ).unwrap().private,
        v.member("original_url"@) == w.member("original_url"@) ==> described(v).unwrap().original_url
            == described(w).unwrap().original_url,
        v.member("name"@) == w.member("name"@) ==> described(v).unwrap().name == described(
            w,
        ).unwrap().name,
{
    law_object_fields(v);
    law_object_fields(w);
    assert(v.member("original_url"@) is None ==> described(v).unwrap().original_url =~= Seq::empty());
    assert(w.member("original_url"@) is None ==> described(w).unwrap().original_url =~= Seq::empty());
}

/// The items of the target's list are read one by one, in their order: an item that
/// describes a repository gives it, and any other gives nothing.
pub proof fn law_target_items_are_read_in_turn(items: Seq<Json>, v: Json)
    ensures
        all_described(Seq::empty()) == Seq::<RepoView>::empty(),
        described(v) matches Some(r) ==> all_described(items.push(v)) == all_described(items).push(r),
        described(v) is None ==> all_described(items.push(v)) == all_described(items),
{
    assert(items.push(v).drop_last() == items);
}

/// A repository on the target holds what its fields hold.
pub proof fn law_repo_is_its_fields(r: Repo, repos: Seq<Repo>)
    ensures
        r@.name == r.name@,
        r@.mirror == r.mirror,
        r@.original_url == r.original_url@,
        r@.private == r.private,
        repo_views(repos).len() == repos.len(),
        forall|i: int| 0 <= i < repos.len() ==> #[trigger] repo_views(repos)[i] == repos[i]@,
{
}

/// A probe found something where it was answered with a code from 200 to 299, and only
/// such an answer brings its document.
pub proof fn law_probe_answers(code: u16, document: Option<Json>)
    ensures
        is_found(Some(Answer { code, document })) <==> code / 100 == 2,
        !is_found(None),
        code / 100 == 2 ==> brought(Some(Answer { code, document })) == document,
        code / 100 != 2 ==> brought(Some(Answer { code, document })) is None,
        brought(None) is None,
{
}

/// Mirrors can be patched where the document declares `mirror_token` among the
/// properties of `EditRepoOption`.
pub proof fn law_mirror_token_is_declared(doc: Json)
    ensures
        declares_mirror_token(doc) <==> exists|d: Json, e: Json, p: Json, t: Json|
            #![trigger d.member("EditRepoOption"@), e.member("properties"@), p.member("mirror_token"@), t.text()]
            {
                &&& doc.member("definitions"@) == Some(d)
                &&& d.member("EditRepoOption"@) == Some(e)
                &&& e.member("properties"@) == Some(p)
                &&& p.member("mirror_token"@) == Some(t)
            },
{
    if declares_mirror_token(doc) {
        let d = doc.member("definitions"@).unwrap();
        let e = d.member("EditRepoOption"@).unwrap();
        let p = e.member("properties"@).unwrap();
        let t = p.member("mirror_token"@).unwrap();
        assert(t.text() == t.text());
    }
}

/// An instance is reached under its URL without the slashes at its end, its API below
/// that, and a repository under its owner.
pub proof fn law_urls_of_the_target(
    target: Target,
    host: Seq<char>,
    slashes: nat,
    token: Seq<char>,
    owner: Seq<char>,
    name: Seq<char>,
)
    requires
        host.len() > 0 ==> host.last() != '/',
        target.is_at(host + Seq::new(slashes, |i: int| '/'), token, owner),
    ensures
        target.base@ == host,
        target.api@ == host + "/api/v1"@,
        target.token@ == token,
        target.owner@ == owner,
        target.repo_url(name) == host + "/api/v1"@ + "/repos/"@ + owner + "/"@ + name,
{
    law_trimming_undoes_appending(host, '/', slashes);
}

/// A request that asks a URL goes there and nowhere else, and holds the token where it
/// is meant to and nothing else.
pub proof fn law_request_asks(target: Target, r: Request, method: Method, url: Seq<char>, with_token: bool)
    requires
        target.asks(r, method, url, with_token),
    ensures
        r.method == method,
        r.url@ == url,
        r.query@.len() == 0,
        with_token ==> r.headers@.len() == 1 && r.headers@[0].0@ == "Authorization"@ && r.headers@[0].1@
            == "token "@ + target.token@,
        !with_token ==> r.headers@.len() == 0,
{
    law_request_is_its_fields(r, arbitrary());
    if with_token {
        assert(r@.headers[0] == ("Authorization"@, "token "@ + target.token@));
    }
}

/// The body of a migration request says what is to be mirrored, under which name and
/// owner, by which service and token, how often, whether it is private, and what it is
/// for; it asks for a mirror, and not for the wiki or large files.
pub proof fn law_migration_body(
    body: Json,
    clone_addr: Seq<char>,
    name: Seq<char>,
    owner: Seq<char>,
    service: Seq<char>,
    token: Seq<char>,
    interval: Seq<char>,
    private: bool,
    description: Option<Seq<char>>,
)
    requires
        body_is(
            Some(body),
            migration_fields(clone_addr, name, owner, service, token, interval, private, description),
        ),
    ensures
        body.member("clone_addr"@) matches Some(Json::Text(s)) && s@ == clone_addr,
        body.member("repo_name"@) matches Some(Json::Text(s)) && s@ == name,
        body.member("repo_owner"@) matches Some(Json::Text(s)) && s@ == owner,
        body.member("service"@) matches Some(Json::Text(s)) && s@ == service,
        body.member("mirror"@) == Some(Json::Bool(true)),
        body.member("mirror_interval"@) matches Some(Json::Text(s)) && s@ == interval,
        body.member("auth_token"@) matches Some(Json::Text(s)) && s@ == token,
        body.member("private"@) == Some(Json::Bool(private)),
        body.member("description"@) matches Some(Json::Text(s)) && match description {
            Some(d) => s@ == d,
            None => s@.len() == 0,
        },
        body.member("wiki"@) == Some(Json::Bool(false)),
        body.member("lfs"@) == Some(Json::Bool(false)),
        body matches Json::Object(members) && members@.len() == 11,
{
    let fields = migration_fields(clone_addr, name, owner, service, token, interval, private, description);
    reveal_strlit("clone_addr");
    reveal_strlit("repo_name");
    reveal_strlit("repo_owner");
    reveal_strlit("service");
    reveal_strlit("mirror");
    reveal_strlit("mirror_interval");
    reveal_strlit("auth_token");
    reveal_strlit("private");
    reveal_strlit("description");
    reveal_strlit("wiki");
    reveal_strlit("lfs");
    assert("clone_addr"@[0] == 'c' && "repo_owner"@[0] == 'r' && "auth_token"@[0] == 'a');
    assert("service"@[0] == 's' && "private"@[0] == 'p');
    assert(fields.len() == 11);
    assert(fields[1].0.len() == 9 && fields[4].0.len() == 6);
    assert(fields[2].0.len() == 10 && fields[3].0.len() == 7 && fields[5].0.len() == 15);
    assert(fields[6].0.len() == 10 && fields[7].0.len() == 7 && fields[8].0.len() == 11);
    assert(fields[9].0.len() == 4 && fields[10].0.len() == 3);
    match body {
        Json::Object(members) => {
            lemma_field_is_member(members, fields, 0);
            lemma_field_is_member(members, fields, 1);
            lemma_field_is_member(members, fields, 2);
            lemma_field_is_member(members, fields, 3);
            lemma_field_is_member(members, fields, 4);
            lemma_field_is_member(members, fields, 5);
            lemma_field_is_member(members, fields, 6);
            lemma_field_is_member(members, fields, 7);
            lemma_field_is_member(members, fields, 8);
            lemma_field_is_member(members, fields, 9);
            lemma_field_is_member(members, fields, 10);
        },
        _ => {},
    }
}

proof fn lemma_field_is_member(members: Vec<(String, Json)>, fields: Seq<(Seq<char>, FieldView)>, i: int)
    requires
        body_is(Some(Json::Object(members)), fields),
        0 <= i < fields.len(),
        forall|j: int| i < j < fields.len() ==> (#[trigger] fields[j]).0 != fields[i].0,
    ensures
        Json::Object(members).member(fields[i].0) == Some(members@[i].1),
        is_field(members@[i].1, fields[i].1),
{
    let key = fields[i].0;
    law_last_member_counts(members@, key);
    assert(members@[i].0@ == key);
    match last_member(members@, key) {
        Some(v) => {
            let k = choose|k: int|
                {
                    &&& 0 <= k < members@.len()
                    &&& (#[trigger] members@[k]).0@ == key
                    &&& members@[k].1 == v
                    &&& forall|j: int| k < j < members@.len() ==> (#[trigger] members@[j]).0@ != key
                };
            assert(fields[k].0 == key);
        },
        None => {},
    }
}

/// The body of a request for another token says the token and nothing else.
pub proof fn law_token_body(body: Json, token: Seq<char>)
    requires
        body_is(Some(body), seq![("mirror_token"@, FieldView::Text(token))]),
    ensures
        body.member("mirror_token"@) matches Some(Json::Text(s)) && s@ == token,
        body matches Json::Object(members) && members@.len() == 1,
{
    match body {
        Json::Object(members) => {
            lemma_field_is_member(members, seq![("mirror_token"@, FieldView::Text(token))], 0);
        },
        _ => {},
    }
}

/// The version that a probe told; empty where it told none.
pub open spec fn told_version(version: Option<Answer>) -> Seq<char> {
    match brought(version) {
        Some(doc) => match str_member(doc, "version"@) {
            Some(s) => s,
            None => Seq::empty(),
        },
        None => Seq::empty(),
    }
}

/// Whether a probe told that mirrors can be patched.
pub open spec fn told_patch_support(swagger: Option<Answer>) -> bool {
    brought(swagger) matches Some(doc) && declares_mirror_token(doc)
}

/// Whether the owner is an organization: what is set, or else what the probe found.
pub open spec fn told_org(configured: OwnerType, org: Option<Answer>) -> bool {
    configured == OwnerType::Org || configured == OwnerType::Auto && is_found(org)
}

/// What the probes tell: a version is told by the text of that member of a document that
/// was found, support for patches by a document that was found and declares it; whether
/// the owner is an organization is told by the setting, and by a probe where none is set.
pub proof fn law_what_the_probes_tell(code: u16, doc: Json, configured: OwnerType)
    ensures
        ({
            let answer = Some(Answer { code, document: Some(doc) });
            &&& code / 100 == 2 && (doc.member("version"@) is Some && doc.member("version"@).unwrap() is Text)
                ==> (doc.member("version"@) matches Some(Json::Text(s)) && told_version(answer) == s@)
            &&& code / 100 != 2 || !(doc.member("version"@) matches Some(Json::Text(_))) ==> told_version(
                answer,
            ).len() == 0
            &&& told_patch_support(answer) <==> code / 100 == 2 && declares_mirror_token(doc)
            &&& configured == OwnerType::Org ==> told_org(configured, answer)
            &&& configured == OwnerType::User ==> !told_org(configured, answer)
            &&& configured == OwnerType::Auto ==> (told_org(configured, answer) <==> code / 100 == 2)
        }),
        told_version(None).len() == 0,
        !told_patch_support(None),
        told_org(configured, None) <==> configured == OwnerType::Org,
{
}

} // verus!
