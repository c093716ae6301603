//! The forge to mirror from: how its repositories are listed and read.
use crate::config::{api_base, optional_text, Config, ConfigError, OwnerType, SourceType};
use crate::http::{pair, pairs, PageRequest, PageRequestView};
use crate::json::Json;
use crate::text::{
    eq_ignore_ascii_case, law_trimming_undoes_appending, same_ignoring_case, to_chars, trim_end, trimmed_end,
};
use vstd::prelude::*;

pub mod gitbucket;
pub mod gitea;
pub mod github;
pub mod gitlab;
pub mod order;

use order::{by_name, drop_repeats, sort_by_name, without_repeats};

verus! {

/// A repository discovered on a source forge, normalized across forges.
#[derive(Debug, Clone)]
pub struct SourceRepo {
    pub name: String,
    pub clone_url: String,
    pub private: bool,
    pub fork: bool,
    pub archived: bool,
    pub description: Option<String>,
}

/// What a source repository holds.
pub ghost struct SourceRepoView {
    pub name: Seq<char>,
    pub clone_url: Seq<char>,
    pub private: bool,
    pub fork: bool,
    pub archived: bool,
    pub description: Option<Seq<char>>,
}

impl View for SourceRepo {
    type V = SourceRepoView;

    open spec fn view(&self) -> SourceRepoView {
        SourceRepoView {
            name: self.name@,
            clone_url: self.clone_url@,
            private: self.private,
            fork: self.fork,
            archived: self.archived,
            description: optional_text(self.description),
        }
    }
}

/// What a list of source repositories holds.
pub open spec fn views(repos: Seq<SourceRepo>) -> Seq<SourceRepoView> {
    repos.map_values(|r: SourceRepo| r@)
}

/// What an optional source repository holds.
pub open spec fn optional_view(repo: Option<SourceRepo>) -> Option<SourceRepoView> {
    match repo {
        Some(r) => Some(r@),
        None => None,
    }
}

/// A configured source forge. Adapters live in the submodules and read the
/// fields of this struct directly.
#[derive(Debug)]
pub struct Source {
    pub kind: SourceType,
    pub base_url: String,
    pub token: String,
    pub owner: String,
    pub owner_type: OwnerType,
}

/// Where the listing of a forge stands.
#[derive(Debug)]
pub enum ListStage {
    /// Nothing was asked yet.
    Begin,
    /// The first list came, with these items.
    First(Vec<Json>),
    /// The list asked for in its place came, with these items.
    Fallback(Vec<Json>),
}

/// What the listing of a forge does next.
#[derive(Debug)]
pub enum ListStep {
    /// Fetch this list; its items make the stage `First`.
    Fetch(PageRequest),
    /// Fetch this list instead; its items make the stage `Fallback`.
    FetchFallback(PageRequest),
    /// These are the repositories.
    Listed(Vec<SourceRepo>),
}

/// What a step of a listing holds.
pub ghost enum ListStepView {
    Fetch(PageRequestView),
    FetchFallback(PageRequestView),
    Listed(Seq<SourceRepoView>),
}

impl View for ListStep {
    type V = ListStepView;

    open spec fn view(&self) -> ListStepView {
        match self {
            ListStep::Fetch(request) => ListStepView::Fetch(request@),
            ListStep::FetchFallback(request) => ListStepView::FetchFallback(request@),
            ListStep::Listed(repos) => ListStepView::Listed(views(repos@)),
        }
    }
}

/// The name of a forge in a migration request.
pub open spec fn service_name(kind: SourceType) -> Seq<char> {
    match kind {
        SourceType::Github => "github"@,
        SourceType::Gitlab => "gitlab"@,
        SourceType::Gitea => "gitea"@,
        SourceType::Gitbucket => "gitbucket"@,
    }
}

/// The headers by which a request to the forge is authenticated.
pub open spec fn auth_headers(kind: SourceType, token: Seq<char>) -> Seq<(Seq<char>, Seq<char>)> {
    match kind {
        SourceType::Github => seq![
            ("Authorization"@, "Bearer "@ + token),
            ("Accept"@, "application/vnd.github+json"@),
            ("X-GitHub-Api-Version"@, "2022-11-28"@),
        ],
        SourceType::Gitlab => seq![("PRIVATE-TOKEN"@, token)],
        SourceType::Gitea | SourceType::Gitbucket => seq![("Authorization"@, "token "@ + token)],
    }
}

/// The character as it stands in a path segment.
pub open spec fn encoded_char(c: char) -> Seq<char> {
    if c == '/' {
        "%2F"@
    } else if c == ' ' {
        "%20"@
    } else {
        seq![c]
    }
}

/// The text as a path segment: each slash as `%2F`, each space as `%20`.
pub open spec fn encoded(s: Seq<char>) -> Seq<char>
    decreases s.len(),
{
    if s.len() == 0 {
        Seq::empty()
    } else {
        encoded(s.drop_last()) + encoded_char(s.last())
    }
}

/// Minimal percent-encoding for path segments (GitLab group paths contain `/`).
pub fn encode_path(s: &str) -> (r: String)
    ensures
        r@ == encoded(s@),
{
    let chars = to_chars(s);
    let mut r = String::new();
    let mut i: usize = 0;
    assert(s@.take(0) =~= Seq::empty());
    while i < chars.len()
        invariant
            chars@ == s@,
            i <= chars@.len(),
            r@ == encoded(s@.take(i as int)),
        decreases chars@.len() - i,
    {
        let c = chars[i];
        assert(s@.take(i + 1).drop_last() == s@.take(i as int));
        let ghost start = r@;
        if c == '/' {
            r.append("%2F");
        } else if c == ' ' {
            r.append("%20");
        } else {
            r.push(c);
            assert(start.push(c) =~= start + seq![c]);
        }
        i = i + 1;
    }
    assert(s@.take(i as int) == s@);
    r
}

/// A path segment holds no slash and no space, whatever the text was.
pub proof fn law_path_segment_is_one_segment(s: Seq<char>)
    ensures
        forall|i: int| 0 <= i < encoded(s).len() ==> #[trigger] encoded(s)[i] != '/' && encoded(s)[i] != ' ',
    decreases s.len(),
{
    reveal_strlit("%2F");
    reveal_strlit("%20");
    if s.len() > 0 {
        let front = encoded(s.drop_last());
        law_path_segment_is_one_segment(s.drop_last());
        assert forall|i: int| 0 <= i < encoded(s).len() implies #[trigger] encoded(s)[i] != '/' && encoded(s)[i]
            != ' ' by {
            if i < front.len() {
                assert(encoded(s)[i] == front[i]);
            } else {
                assert(encoded(s)[i] == encoded_char(s.last())[i - front.len()]);
            }
        }
    }
}

/// The path segment of two texts put together is that of the first and that of the
/// second put together.
pub proof fn law_path_segments_join(a: Seq<char>, b: Seq<char>)
    ensures
        encoded(a + b) == encoded(a) + encoded(b),
    decreases b.len(),
{
    if b.len() == 0 {
        assert(a + b == a);
        assert(encoded(a) + encoded(b) == encoded(a));
    } else {
        law_path_segments_join(a, b.drop_last());
        assert((a + b).drop_last() == a + b.drop_last());
        assert(encoded(a + b) =~= encoded(a) + encoded(b));
    }
}

proof fn lemma_encoded_first(s: Seq<char>)
    requires
        s.len() > 0,
    ensures
        encoded(s) == encoded_char(s[0]) + encoded(s.drop_first()),
{
    let first = seq![s[0]];
    assert(s == first + s.drop_first());
    law_path_segments_join(first, s.drop_first());
    assert(first.drop_last() == Seq::<char>::empty());
    assert(encoded(first.drop_last()) + encoded_char(s[0]) == encoded_char(s[0]));
}

/// A text without a percent sign can be read back from its path segment: no other such
/// text has the same.
pub proof fn law_path_segment_reads_back(a: Seq<char>, b: Seq<char>)
    requires
        !a.contains('%'),
        !b.contains('%'),
        encoded(a) == encoded(b),
    ensures
        a == b,
    decreases a.len(),
{
    reveal_strlit("%2F");
    reveal_strlit("%20");
    if a.len() > 0 {
        lemma_encoded_first(a);
    }
    if b.len() > 0 {
        lemma_encoded_first(b);
    }
    if a.len() > 0 && b.len() > 0 {
        let x = encoded_char(a[0]);
        let y = encoded_char(b[0]);
        let u = encoded(a.drop_first());
        let v = encoded(b.drop_first());
        assert(a.contains(a[0]) && b.contains(b[0]));
        assert((x + u)[0] == x[0] && (y + v)[0] == y[0]);
        if x.len() == 3 && y.len() == 3 {
            assert((x + u)[2] == x[2] && (y + v)[2] == y[2]);
        }
        assert(a[0] == b[0]);
        assert(u == (x + u).skip(x.len() as int));
        assert(v == (y + v).skip(y.len() as int));
        assert forall|c: char| a.drop_first().contains(c) implies a.contains(c) by {
            let k = choose|k: int| 0 <= k < a.drop_first().len() && a.drop_first()[k] == c;
            assert(a[k + 1] == c);
        }
        assert forall|c: char| b.drop_first().contains(c) implies b.contains(c) by {
            let k = choose|k: int| 0 <= k < b.drop_first().len() && b.drop_first()[k] == c;
            assert(b[k + 1] == c);
        }
        law_path_segment_reads_back(a.drop_first(), b.drop_first());
        assert(a == seq![a[0]] + a.drop_first());
        assert(b == seq![b[0]] + b.drop_first());
    } else {
        assert(a.len() > 0 ==> encoded(a).len() > 0);
        assert(b.len() > 0 ==> encoded(b).len() > 0);
        assert(a == b);
    }
}

/// The text of the member called `key`, where it is a string.
pub open spec fn str_member(v: Json, key: Seq<char>) -> Option<Seq<char>> {
    match v.member(key) {
        Some(x) => x.text(),
        None => None,
    }
}

/// The truth value of the member called `key`; false where it is no boolean.
pub open spec fn bool_member(v: Json, key: Seq<char>) -> bool {
    match v.member(key) {
        Some(x) => x.truth() == Some(true),
        None => false,
    }
}

/// The text of the member called `key`, where it is a string.
pub fn jstr(v: &Json, key: &str) -> (r: Option<String>)
    ensures
        optional_text(r) == str_member(*v, key@),
{
    match v.get(key) {
        Some(x) => match x.as_str() {
            Some(s) => Some(s.to_owned()),
            None => None,
        },
        None => None,
    }
}

/// The truth value of the member called `key`; false where it is no boolean.
pub fn jbool(v: &Json, key: &str) -> (r: bool)
    ensures
        r == bool_member(*v, key@),
{
    match v.get(key) {
        Some(x) => match x.as_bool() {
            Some(b) => b,
            None => false,
        },
        None => false,
    }
}

/// A repository as GitHub and the forges with its API describe it. Its name and
/// its clone URL must be there.
pub open spec fn described_repo(v: Json) -> Option<SourceRepoView> {
    match (str_member(v, "name"@), str_member(v, "clone_url"@)) {
        (Some(name), Some(clone_url)) => Some(
            SourceRepoView {
                name,
                clone_url,
                private: bool_member(v, "private"@),
                fork: bool_member(v, "fork"@),
                archived: bool_member(v, "archived"@),
                description: str_member(v, "description"@),
            },
        ),
        _ => None,
    }
}

/// Reads a repository as GitHub and the forges with its API describe it.
fn read_described_repo(v: &Json) -> (r: Option<SourceRepo>)
    ensures
        optional_view(r) == described_repo(*v),
{
    let name = match jstr(v, "name") {
        Some(name) => name,
        None => return None,
    };
    let clone_url = match jstr(v, "clone_url") {
        Some(clone_url) => clone_url,
        None => return None,
    };
    Some(
        SourceRepo {
            name,
            clone_url,
            private: jbool(v, "private"),
            fork: jbool(v, "fork"),
            archived: jbool(v, "archived"),
            description: jstr(v, "description"),
        },
    )
}

/// Whether the owner named by the text in `login` is `owner`, letter case aside.
pub open spec fn login_is(login: Option<Json>, owner: Seq<char>) -> bool {
    match login {
        Some(l) => match l.text() {
            Some(text) => same_ignoring_case(text, owner),
            None => false,
        },
        None => false,
    }
}

/// Tests whether the owner named by the text in `login` is `owner`, letter case
/// aside.
fn login_matches(login: Option<&Json>, owner: &str) -> (r: bool)
    ensures
        r == login_is(
            match login {
                Some(l) => Some(*l),
                None => None,
            },
            owner@,
        ),
{
    match login {
        Some(l) => match l.as_str() {
            Some(text) => eq_ignore_ascii_case(text, owner),
            None => false,
        },
        None => false,
    }
}

/// The repository that an item of a forge's list describes.
pub open spec fn repo_of(kind: SourceType, v: Json) -> Option<SourceRepoView> {
    match kind {
        SourceType::Gitlab => gitlab::project(v),
        _ => described_repo(v),
    }
}

/// Whether an item of a forge's list belongs to `owner`.
pub open spec fn owned_by(kind: SourceType, v: Json, owner: Seq<char>) -> bool {
    match kind {
        SourceType::Github => github::owned_by(v, owner),
        SourceType::Gitea => gitea::owned_by(v, owner),
        SourceType::Gitbucket => gitbucket::owned_by(v, owner),
        SourceType::Gitlab => false,
    }
}

/// The repositories that the items of a list describe, in their order; items that
/// describe none are passed over.
pub open spec fn mapped(kind: SourceType, items: Seq<Json>) -> Seq<SourceRepoView>
    decreases items.len(),
{
    if items.len() == 0 {
        Seq::empty()
    } else {
        match repo_of(kind, items.last()) {
            Some(repo) => mapped(kind, items.drop_last()).push(repo),
            None => mapped(kind, items.drop_last()),
        }
    }
}

/// The items of a list that belong to `owner`.
pub open spec fn owned(kind: SourceType, items: Seq<Json>, owner: Seq<char>) -> Seq<Json> {
    items.filter(|v: Json| owned_by(kind, v, owner))
}

fn map_item(kind: SourceType, v: &Json) -> (r: Option<SourceRepo>)
    ensures
        optional_view(r) == repo_of(kind, *v),
{
    match kind {
        SourceType::Github => github::map_repo(v),
        SourceType::Gitlab => gitlab::map_repo(v),
        SourceType::Gitea => gitea::map_repo(v),
        SourceType::Gitbucket => gitbucket::map_repo(v),
    }
}

fn item_belongs_to(kind: SourceType, v: &Json, owner: &str) -> (r: bool)
    ensures
        r == owned_by(kind, *v, owner@),
{
    match kind {
        SourceType::Github => github::owner_matches(v, owner),
        SourceType::Gitea => gitea::owner_matches(v, owner),
        SourceType::Gitbucket => gitbucket::owner_matches(v, owner),
        SourceType::Gitlab => false,
    }
}

/// Reads the repositories that the items of a list describe.
fn map_items(kind: SourceType, items: &Vec<Json>) -> (r: Vec<SourceRepo>)
    ensures
        views(r@) == mapped(kind, items@),
{
    let mut r: Vec<SourceRepo> = Vec::new();
    let mut i: usize = 0;
    assert(views(r@) =~= Seq::empty());
    while i < items.len()
        invariant
            i <= items@.len(),
            views(r@) == mapped(kind, items@.take(i as int)),
        decreases items@.len() - i,
    {
        assert(items@.take(i + 1).drop_last() == items@.take(i as int));
        let ghost start = views(r@);
        match map_item(kind, &items[i]) {
            Some(repo) => {
                r.push(repo);
                assert(views(r@) =~= start.push(repo@));
            },
            None => {},
        }
        i = i + 1;
    }
    assert(items@.take(i as int) == items@);
    r
}

/// Reads the repositories that the items of `owner` describe; `None` where the list
/// holds no item of that owner.
fn map_owned_items(kind: SourceType, items: &Vec<Json>, owner: &str) -> (r: Option<Vec<SourceRepo>>)
    ensures
        match r {
            Some(repos) => {
                &&& owned(kind, items@, owner@).len() > 0
                &&& views(repos@) == mapped(kind, owned(kind, items@, owner@))
            },
            None => owned(kind, items@, owner@).len() == 0,
        },
{
    let mut r: Vec<SourceRepo> = Vec::new();
    let mut any = false;
    let mut i: usize = 0;
    proof {
        reveal(Seq::filter);
        assert(items@.take(0) =~= Seq::empty());
        assert(owned(kind, items@.take(0), owner@) =~= Seq::empty());
        assert(views(r@) =~= Seq::empty());
    }
    while i < items.len()
        invariant
            i <= items@.len(),
            any == (owned(kind, items@.take(i as int), owner@).len() > 0),
            views(r@) == mapped(kind, owned(kind, items@.take(i as int), owner@)),
        decreases items@.len() - i,
    {
        proof {
            reveal(Seq::filter);
            assert(items@.take(i + 1).drop_last() == items@.take(i as int));
        }
        if item_belongs_to(kind, &items[i], owner) {
            let ghost start = views(r@);
            let ghost mine = owned(kind, items@.take(i as int), owner@);
            assert(mine.push(items@[i as int]).drop_last() == mine);
            any = true;
            match map_item(kind, &items[i]) {
                Some(repo) => {
                    r.push(repo);
                    assert(views(r@) =~= start.push(repo@));
                },
                None => {},
            }
        }
        i = i + 1;
    }
    assert(items@.take(i as int) == items@);
    if any {
        Some(r)
    } else {
        None
    }
}

/// The listing of a forge that lists an organization's repositories in one place.
/// For a user it asks for the repositories of the token's account, and where none of
/// them is the owner's, for those that the owner shows to the public.
pub open spec fn two_list_step(
    kind: SourceType,
    owner: Seq<char>,
    is_org: bool,
    stage: ListStage,
    of_org: PageRequestView,
    of_account: PageRequestView,
    of_user: PageRequestView,
) -> ListStepView {
    match stage {
        ListStage::Begin => ListStepView::Fetch(
            if is_org {
                of_org
            } else {
                of_account
            },
        ),
        ListStage::First(items) => if is_org {
            ListStepView::Listed(mapped(kind, items@))
        } else if owned(kind, items@, owner).len() > 0 {
            ListStepView::Listed(mapped(kind, owned(kind, items@, owner)))
        } else {
            ListStepView::FetchFallback(of_user)
        },
        ListStage::Fallback(items) => ListStepView::Listed(mapped(kind, items@)),
    }
}

/// Whether a listing by two lists is to fetch, and which list, or what it found.
enum Listing {
    Org,
    Account,
    User,
    Found(Vec<SourceRepo>),
}

fn two_list_listing(kind: SourceType, owner: &str, is_org: bool, stage: ListStage) -> (r: Listing)
    ensures
        match r {
            Listing::Org => stage is Begin && is_org,
            Listing::Account => stage is Begin && !is_org,
            Listing::User => {
                &&& !is_org
                &&& stage matches ListStage::First(items) && owned(kind, items@, owner@).len() == 0
            },
            Listing::Found(repos) => forall|a: PageRequestView, b: PageRequestView, c: PageRequestView|
                #[trigger] two_list_step(kind, owner@, is_org, stage, a, b, c) == ListStepView::Listed(
                    views(repos@),
                ),
        },
{
    match stage {
        ListStage::Begin => if is_org {
            Listing::Org
        } else {
            Listing::Account
        },
        ListStage::First(items) => if is_org {
            Listing::Found(map_items(kind, &items))
        } else {
            match map_owned_items(kind, &items, owner) {
                Some(repos) => Listing::Found(repos),
                None => Listing::User,
            }
        },
        ListStage::Fallback(items) => Listing::Found(map_items(kind, &items)),
    }
}

/// What the listing of the configured forge does next.
pub open spec fn forge_step(src: Source, ot: OwnerType, stage: ListStage) -> ListStepView {
    match src.kind {
        SourceType::Github => github::step(src, ot, stage),
        SourceType::Gitlab => gitlab::step(src, ot, stage),
        SourceType::Gitea => gitea::step(src, ot, stage),
        SourceType::Gitbucket => gitbucket::step(src, ot, stage),
    }
}

/// The URL by which it is found out whether the owner is an organization or group.
pub open spec fn probe_url(src: Source) -> Seq<char> {
    let base = trimmed_end(src.base_url@, '/');
    match src.kind {
        SourceType::Gitlab => base + "/groups/"@ + encoded(src.owner@),
        _ => base + "/orgs/"@ + src.owner@,
    }
}

impl Source {
    /// The source that the settings describe.
    pub fn from_config(cfg: &Config) -> (r: Result<Source, ConfigError>)
        ensures
            match r {
                Ok(src) => {
                    &&& api_base(cfg.source_type, optional_text(cfg.source_url)) == Some(src.base_url@)
                    &&& src.kind == cfg.source_type
                    &&& src.token@ == cfg.source_token@
                    &&& src.owner@ == cfg.source_owner@
                    &&& src.owner_type == cfg.source_owner_type
                },
                Err(e) => {
                    &&& api_base(cfg.source_type, optional_text(cfg.source_url)) is None
                    &&& e == ConfigError::SourceUrlRequired(cfg.source_type)
                },
            },
    {
        let base_url = match cfg.source_api_base() {
            Ok(base_url) => base_url,
            Err(e) => return Err(e),
        };
        Ok(
            Source {
                kind: cfg.source_type,
                base_url,
                token: cfg.source_token.clone(),
                owner: cfg.source_owner.clone(),
                owner_type: cfg.source_owner_type,
            },
        )
    }

    /// The Gitea/Forgejo `migrate` service value for this source.
    pub fn service(&self) -> (r: &'static str)
        ensures
            r@ == service_name(self.kind),
    {
        match self.kind {
            SourceType::Github => "github",
            SourceType::Gitlab => "gitlab",
            SourceType::Gitea => "gitea",
            SourceType::Gitbucket => "gitbucket",
        }
    }

    /// Takes the listing of every repository under the owner one step further.
    /// The result is sorted by name and holds each name once.
    pub fn list_repos(&self, ot: OwnerType, stage: ListStage) -> (r: ListStep)
        ensures
            r@ == match forge_step(*self, ot, stage) {
                ListStepView::Listed(repos) => ListStepView::Listed(without_repeats(by_name(repos))),
                step => step,
            },
    {
        let step = match self.kind {
            SourceType::Github => github::list(self, ot, stage),
            SourceType::Gitlab => gitlab::list(self, ot, stage),
            SourceType::Gitea => gitea::list(self, ot, stage),
            SourceType::Gitbucket => gitbucket::list(self, ot, stage),
        };
        match step {
            // Defensive de-dup in case a forge ignores pagination params.
            ListStep::Listed(repos) => ListStep::Listed(drop_repeats(sort_by_name(repos))),
            step => step,
        }
    }

    /// The headers of the per-forge authentication.
    pub fn auth(&self) -> (r: Vec<(String, String)>)
        ensures
            pairs(r@) == auth_headers(self.kind, self.token@),
    {
        let mut r: Vec<(String, String)> = Vec::new();
        match self.kind {
            SourceType::Github => {
                let bearer = "Bearer ".to_owned().concat(self.token.as_str());
                r.push(pair("Authorization", bearer.as_str()));
                r.push(pair("Accept", "application/vnd.github+json"));
                r.push(pair("X-GitHub-Api-Version", "2022-11-28"));
            },
            SourceType::Gitlab => {
                r.push(pair("PRIVATE-TOKEN", self.token.as_str()));
            },
            SourceType::Gitea | SourceType::Gitbucket => {
                let token = "token ".to_owned().concat(self.token.as_str());
                r.push(pair("Authorization", token.as_str()));
            },
        }
        assert(pairs(r@) =~= auth_headers(self.kind, self.token@));
        r
    }

    /// The URL to probe where the owner type is to be found out.
    pub fn owner_probe(&self) -> (r: Option<String>)
        ensures
            optional_text(r) == if self.owner_type == OwnerType::Auto {
                Some(probe_url(*self))
            } else {
                None
            },
    {
        if self.owner_type != OwnerType::Auto {
            return None;
        }
        let base = trim_end(self.base_url.as_str(), '/');
        Some(
            match self.kind {
                SourceType::Gitlab => {
                    let owner = encode_path(self.owner.as_str());
                    base.concat("/groups/").concat(owner.as_str())
                },
                _ => base.concat("/orgs/").concat(self.owner.as_str()),
            },
        )
    }

    /// Resolve `Auto` by whether the probed org/group endpoint was found.
    pub fn effective_owner_type(&self, org_found: bool) -> (r: OwnerType)
        ensures
            r == if self.owner_type != OwnerType::Auto {
                self.owner_type
            } else if org_found {
                OwnerType::Org
            } else {
                OwnerType::User
            },
            r == resolved_owner_type(self.owner_type, org_found),
    {
        if self.owner_type != OwnerType::Auto {
            return self.owner_type;
        }
        if org_found {
            OwnerType::Org
        } else {
            OwnerType::User
        }
    }
}

/// What is read of an item of a list of GitHub, Gitea or GitBucket. It describes a
/// repository exactly where its name and its clone URL are texts. Each field is read
/// from the member of its own name and from no other: a mark is set exactly where that
/// member is true.
pub proof fn law_repo_fields(kind: SourceType, v: Json)
    requires
        kind != SourceType::Gitlab,
    ensures
        repo_of(kind, v) is Some <==> (v.member("name"@) matches Some(Json::Text(_))) && (v.member(
            "clone_url"@,
        ) matches Some(Json::Text(_))),
        repo_of(kind, v) matches Some(r) ==> {
            &&& v.member("name"@) matches Some(Json::Text(s)) && r.name == s@
            &&& v.member("clone_url"@) matches Some(Json::Text(s)) && r.clone_url == s@
            &&& r.archived <==> v.member("archived"@) == Some(Json::Bool(true))
            &&& r.fork <==> v.member("fork"@) == Some(Json::Bool(true))
            &&& r.private <==> v.member("private"@) == Some(Json::Bool(true))
            &&& match v.member("description"@) {
                Some(Json::Text(s)) => r.description == Some(s@),
                _ => r.description is None,
            }
        },
{
}

/// What is read of a project of GitLab. It makes a repository exactly where its path and
/// its URL are texts. It is archived where it says so, a fork where it names an origin,
/// and private unless it says that it is public; each of these by its own member.
pub proof fn law_project_fields(v: Json)
    ensures
        repo_of(SourceType::Gitlab, v) is Some <==> (v.member("path"@) matches Some(Json::Text(_)))
            && (v.member("http_url_to_repo"@) matches Some(Json::Text(_))),
        repo_of(SourceType::Gitlab, v) matches Some(r) ==> {
            &&& v.member("path"@) matches Some(Json::Text(s)) && r.name == s@
            &&& v.member("http_url_to_repo"@) matches Some(Json::Text(s)) && r.clone_url == s@
            &&& r.archived <==> v.member("archived"@) == Some(Json::Bool(true))
            &&& !r.fork <==> v.member("forked_from_project"@) is None || v.member(
                "forked_from_project"@,
            ) == Some(Json::Null)
            &&& !r.private <==> (v.member("visibility"@) matches Some(Json::Text(s)) && s@ == "public"@)
            &&& match v.member("description"@) {
                Some(Json::Text(s)) => r.description == Some(s@),
                _ => r.description is None,
            }
        },
{
}

/// Two items that agree in the member of a field agree in the field, whatever else they
/// hold.
pub proof fn law_fields_do_not_mix(kind: SourceType, v: Json, w: Json)
    requires
        kind != SourceType::Gitlab,
        repo_of(kind, v) is Some,
        repo_of(kind, w) is Some,
    ensures
        v.member("archived"@) == w.member("archived"@) ==> repo_of(kind, v).unwrap().archived == repo_of(
            kind,
            w,
        ).unwrap().archived,
        v.member("fork"@) == w.member("fork"@) ==> repo_of(kind, v).unwrap().fork == repo_of(
            kind,
            w,
        ).unwrap().fork,
        v.member("private"@) == w.member("private"@) ==> repo_of(kind, v).unwrap().private == repo_of(
            kind,
            w,
        ).unwrap().private,
        v.member("description"@) == w.member("description"@) ==> repo_of(kind, v).unwrap().description
            == repo_of(kind, w).unwrap().description,
{
    law_repo_fields(kind, v);
    law_repo_fields(kind, w);
}

/// The items of a list are read one by one, in their order: an item that describes a
/// repository gives it, and any other gives nothing.
pub proof fn law_items_are_read_in_turn(kind: SourceType, items: Seq<Json>, v: Json)
    ensures
        mapped(kind, Seq::empty()) == Seq::<SourceRepoView>::empty(),
        repo_of(kind, v) matches Some(r) ==> mapped(kind, items.push(v)) == mapped(kind, items).push(r),
        repo_of(kind, v) is None ==> mapped(kind, items.push(v)) == mapped(kind, items),
{
    assert(items.push(v).drop_last() == items);
}

/// A repository was read of a list exactly where an item of it describes it.
pub proof fn law_read_is_what_is_described(kind: SourceType, items: Seq<Json>, r: SourceRepoView)
    ensures
        mapped(kind, items).contains(r) <==> exists|i: int|
            0 <= i < items.len() && repo_of(kind, #[trigger] items[i]) == Some(r),
    decreases items.len(),
{
    if items.len() > 0 {
        let rest = items.drop_last();
        law_read_is_what_is_described(kind, rest, r);
        let all = mapped(kind, items);
        let some = mapped(kind, rest);
        if all.contains(r) {
            let k = choose|k: int| 0 <= k < all.len() && all[k] == r;
            if k < some.len() {
                assert(some[k] == r);
                let i = choose|i: int| 0 <= i < rest.len() && repo_of(kind, #[trigger] rest[i]) == Some(r);
                assert(items[i] == rest[i]);
            } else {
                assert(repo_of(kind, items[items.len() - 1]) == Some(r));
            }
        }
        if exists|i: int| 0 <= i < items.len() && repo_of(kind, #[trigger] items[i]) == Some(r) {
            let i = choose|i: int| 0 <= i < items.len() && repo_of(kind, #[trigger] items[i]) == Some(r);
            if i < rest.len() {
                assert(rest[i] == items[i]);
                let k = choose|k: int| 0 <= k < some.len() && some[k] == r;
                assert(all[k] == r);
            } else {
                assert(all[all.len() - 1] == r);
            }
        }
    }
}

/// An item is its owner's by the text of the owner's `login`, letter case aside; Gitea
/// may say `username` in its place.
pub proof fn law_owner_is_named_by_login(v: Json, owner: Seq<char>)
    ensures
        owned_by(SourceType::Github, v, owner) <==> (v.member("owner"@) matches Some(o) && (o.member(
            "login"@,
        ) matches Some(Json::Text(s)) && same_ignoring_case(s@, owner))),
        owned_by(SourceType::Gitbucket, v, owner) <==> (v.member("owner"@) matches Some(o) && (o.member(
            "login"@,
        ) matches Some(Json::Text(s)) && same_ignoring_case(s@, owner))),
        owned_by(SourceType::Gitea, v, owner) <==> (v.member("owner"@) matches Some(o) && {
            ||| (o.member("login"@) matches Some(Json::Text(s)) && same_ignoring_case(s@, owner))
            ||| o.member("login"@) is None && (o.member("username"@) matches Some(Json::Text(s))
                && same_ignoring_case(s@, owner))
        }),
{
}

/// The items of an owner are those of the list that are the owner's, in their order.
pub proof fn law_owned_items_keep_their_order(kind: SourceType, items: Seq<Json>, v: Json, owner: Seq<char>)
    ensures
        owned(kind, Seq::empty(), owner) == Seq::<Json>::empty(),
        owned_by(kind, v, owner) ==> owned(kind, items.push(v), owner) == owned(kind, items, owner).push(v),
        !owned_by(kind, v, owner) ==> owned(kind, items.push(v), owner) == owned(kind, items, owner),
{
    reveal(Seq::filter);
    assert(items.push(v).drop_last() == items);
}

/// Which list is asked for first. Of an organization that of its repositories; of a user
/// that of the repositories of the token's account, and on GitLab that of the user's.
pub proof fn law_first_list(src: Source, ot: OwnerType, host: Seq<char>, slashes: nat)
    requires
        host.len() > 0 ==> host.last() != '/',
        src.base_url@ == host + Seq::new(slashes, |i: int| '/'),
    ensures
        forge_step(src, ot, ListStage::Begin) matches ListStepView::Fetch(list) && {
            &&& list.headers == auth_headers(src.kind, src.token@)
            &&& match src.kind {
                SourceType::Github => {
                    &&& list.size_param == "per_page"@ && list.page_size == 100 && list.max_pages == 100
                    &&& ot == OwnerType::Org ==> list.url == host + ("/orgs/"@ + src.owner@ + "/repos"@)
                        && list.extra == seq![("type"@, "all"@)]
                    &&& ot != OwnerType::Org ==> list.url == host + "/user/repos"@ && list.extra == seq![
                        ("affiliation"@, "owner"@),
                        ("visibility"@, "all"@),
                    ]
                },
                SourceType::Gitlab => {
                    &&& list.size_param == "per_page"@ && list.page_size == 100 && list.max_pages == 200
                    &&& ot == OwnerType::Org ==> list.url == host + ("/groups/"@ + encoded(src.owner@)
                        + "/projects"@) && list.extra == seq![
                        ("include_subgroups"@, "true"@),
                        ("with_shared"@, "false"@),
                    ]
                    &&& ot != OwnerType::Org ==> list.url == host + ("/users/"@ + encoded(src.owner@)
                        + "/projects"@) && list.extra.len() == 0
                },
                SourceType::Gitea => {
                    &&& list.size_param == "limit"@ && list.page_size == 50 && list.max_pages == 500
                    &&& list.extra.len() == 0
                    &&& ot == OwnerType::Org ==> list.url == host + ("/orgs/"@ + src.owner@ + "/repos"@)
                    &&& ot != OwnerType::Org ==> list.url == host + "/user/repos"@
                },
                SourceType::Gitbucket => {
                    &&& list.size_param == "per_page"@ && list.page_size == 100 && list.max_pages == 100
                    &&& list.extra.len() == 0
                    &&& ot == OwnerType::Org ==> list.url == host + ("/orgs/"@ + src.owner@ + "/repos"@)
                    &&& ot != OwnerType::Org ==> list.url == host + "/user/repos"@
                },
            }
        },
{
    law_trimming_undoes_appending(host, '/', slashes);
}

/// What becomes of the first list. All of it is read where it is an organization's or
/// GitLab's. Else only what is the owner's is read; and where nothing of it is, the list
/// that the owner shows to the public is asked for, and all of that one is read.
pub proof fn law_what_becomes_of_the_first_list(
    src: Source,
    ot: OwnerType,
    items: Vec<Json>,
    host: Seq<char>,
    slashes: nat,
)
    requires
        host.len() > 0 ==> host.last() != '/',
        src.base_url@ == host + Seq::new(slashes, |i: int| '/'),
    ensures
        ({
            let some_owned = exists|i: int|
                0 <= i < items@.len() && owned_by(src.kind, #[trigger] items@[i], src.owner@);
            let step = forge_step(src, ot, ListStage::First(items));
            &&& forge_step(src, ot, ListStage::Fallback(items)) == ListStepView::Listed(
                mapped(src.kind, items@),
            )
            &&& ot == OwnerType::Org || src.kind == SourceType::Gitlab ==> step == ListStepView::Listed(
                mapped(src.kind, items@),
            )
            &&& ot != OwnerType::Org && src.kind != SourceType::Gitlab && some_owned ==> step
                == ListStepView::Listed(mapped(src.kind, owned(src.kind, items@, src.owner@)))
            &&& ot != OwnerType::Org && src.kind != SourceType::Gitlab && !some_owned ==> (step matches
                ListStepView::FetchFallback(list) && {
                &&& list.url == host + ("/users/"@ + src.owner@ + "/repos"@)
                &&& list.headers == auth_headers(src.kind, src.token@)
                &&& list.size_param == if src.kind == SourceType::Gitea {
                    "limit"@
                } else {
                    "per_page"@
                }
                &&& list.page_size == if src.kind == SourceType::Gitea {
                    50nat
                } else {
                    100nat
                }
                &&& list.max_pages == if src.kind == SourceType::Gitea {
                    500nat
                } else {
                    100nat
                }
                &&& list.extra == if src.kind == SourceType::Github {
                    seq![("type"@, "all"@)]
                } else {
                    Seq::empty()
                }
            })
        }),
{
    law_trimming_undoes_appending(host, '/', slashes);
    lemma_owned_any(src.kind, items@, src.owner@);
}

proof fn lemma_owned_any(kind: SourceType, items: Seq<Json>, owner: Seq<char>)
    ensures
        owned(kind, items, owner).len() > 0 <==> exists|i: int|
            0 <= i < items.len() && owned_by(kind, #[trigger] items[i], owner),
    decreases items.len(),
{
    if items.len() == 0 {
        reveal(Seq::filter);
    } else {
        let rest = items.drop_last();
        lemma_owned_any(kind, rest, owner);
        law_owned_items_keep_their_order(kind, rest, items.last(), owner);
        assert(items == rest.push(items.last()));
        if exists|i: int| 0 <= i < rest.len() && owned_by(kind, #[trigger] rest[i], owner) {
            let i = choose|i: int| 0 <= i < rest.len() && owned_by(kind, #[trigger] rest[i], owner);
            assert(owned_by(kind, items[i], owner));
        }
        if exists|i: int| 0 <= i < items.len() && owned_by(kind, #[trigger] items[i], owner) {
            let i = choose|i: int| 0 <= i < items.len() && owned_by(kind, #[trigger] items[i], owner);
            if i < rest.len() {
                assert(owned_by(kind, rest[i], owner));
            }
        }
        if owned_by(kind, items.last(), owner) {
            assert(owned_by(kind, items[items.len() - 1], owner));
        }
    }
}

/// A request to a forge holds the token where the forge looks for it.
pub proof fn law_token_is_sent(kind: SourceType, token: Seq<char>)
    ensures
        ({
            let headers = auth_headers(kind, token);
            match kind {
                SourceType::Github => {
                    &&& headers.len() == 3
                    &&& headers[0].0 == "Authorization"@ && headers[0].1 == "Bearer "@ + token
                    &&& headers[1].0 == "Accept"@ && headers[1].1 == "application/vnd.github+json"@
                    &&& headers[2].0 == "X-GitHub-Api-Version"@ && headers[2].1 == "2022-11-28"@
                },
                SourceType::Gitlab => {
                    &&& headers.len() == 1
                    &&& headers[0].0 == "PRIVATE-TOKEN"@ && headers[0].1 == token
                },
                _ => {
                    &&& headers.len() == 1
                    &&& headers[0].0 == "Authorization"@ && headers[0].1 == "token "@ + token
                },
            }
        }),
{
}

/// Each kind of forge has the name that a migration request calls it by.
pub proof fn law_services(kind: SourceType)
    ensures
        service_name(kind) == match kind {
            SourceType::Github => "github"@,
            SourceType::Gitlab => "gitlab"@,
            SourceType::Gitea => "gitea"@,
            SourceType::Gitbucket => "gitbucket"@,
        },
{
}

/// A path segment is the text with each slash and each space replaced.
pub proof fn law_only_slash_and_space_are_encoded(s: Seq<char>, c: char)
    ensures
        encoded(Seq::empty()) == Seq::<char>::empty(),
        encoded(s.push('/')) == encoded(s) + seq!['%', '2', 'F'],
        encoded(s.push(' ')) == encoded(s) + seq!['%', '2', '0'],
        c != '/' && c != ' ' ==> encoded(s.push(c)) == encoded(s).push(c),
{
    reveal_strlit("%2F");
    reveal_strlit("%20");
    assert("%2F"@ =~= seq!['%', '2', 'F']);
    assert("%20"@ =~= seq!['%', '2', '0']);
    assert(s.push('/').drop_last() == s);
    assert(s.push(' ').drop_last() == s);
    assert(s.push(c).drop_last() == s);
}

/// Whether the owner is an organization is asked under the owner's name; on GitLab,
/// whether it is a group.
pub proof fn law_owner_is_probed_by_name(src: Source, host: Seq<char>, slashes: nat)
    requires
        host.len() > 0 ==> host.last() != '/',
        src.base_url@ == host + Seq::new(slashes, |i: int| '/'),
    ensures
        src.kind == SourceType::Gitlab ==> probe_url(src) == host + "/groups/"@ + encoded(src.owner@),
        src.kind != SourceType::Gitlab ==> probe_url(src) == host + "/orgs/"@ + src.owner@,
{
    law_trimming_undoes_appending(host, '/', slashes);
}

/// A repository holds what its fields hold.
pub proof fn law_source_repo_is_its_fields(r: SourceRepo, repos: Seq<SourceRepo>)
    ensures
        r@.name == r.name@,
        r@.clone_url == r.clone_url@,
        r@.private == r.private,
        r@.fork == r.fork,
        r@.archived == r.archived,
        r.description matches Some(d) ==> r@.description == Some(d@),
        r.description is None ==> r@.description is None,
        views(repos).len() == repos.len(),
        forall|i: int| 0 <= i < repos.len() ==> #[trigger] views(repos)[i] == repos[i]@,
        optional_view(Some(r)) == Some(r@),
        optional_view(None) is None,
{
}

/// A text is read of a member exactly where the member is one, and a mark is set exactly
/// where the member is true.
pub proof fn law_members_are_read_by_kind(v: Json, key: Seq<char>)
    ensures
        match v.member(key) {
            Some(Json::Text(s)) => str_member(v, key) == Some(s@) && !bool_member(v, key),
            Some(Json::Bool(b)) => str_member(v, key) is None && bool_member(v, key) == b,
            _ => str_member(v, key) is None && !bool_member(v, key),
        },
{
}

/// Asking for a list and finding repositories are told apart, and each holds what its
/// fields hold.
pub proof fn law_list_step_is_its_fields(step: ListStep)
    ensures
        match step {
            ListStep::Fetch(list) => step@ == ListStepView::Fetch(list@),
            ListStep::FetchFallback(list) => step@ == ListStepView::FetchFallback(list@),
            ListStep::Listed(repos) => step@ matches ListStepView::Listed(listed) && listed.len() == repos@.len()
                && forall|i: int| 0 <= i < repos@.len() ==> #[trigger] listed[i] == repos@[i]@,
        },
{
}

/// The owner type that a listing goes by: what is set, or else what the probe found.
pub open spec fn resolved_owner_type(set: OwnerType, org_found: bool) -> OwnerType {
    match set {
        OwnerType::Auto => if org_found {
            OwnerType::Org
        } else {
            OwnerType::User
        },
        known => known,
    }
}

/// The owner type is resolved to an organization or a user; one that is set stands,
/// whatever the probe found, and else the probe decides.
pub proof fn law_owner_type_is_resolved(set: OwnerType, org_found: bool)
    ensures
        resolved_owner_type(set, org_found) != OwnerType::Auto,
        set != OwnerType::Auto ==> resolved_owner_type(set, org_found) == set,
        set == OwnerType::Auto ==> (org_found <==> resolved_owner_type(set, org_found) == OwnerType::Org),
{
}

} // verus!
