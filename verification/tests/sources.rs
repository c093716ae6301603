use gitea_mirror_sync::config::{
    d_cron, d_interval, d_state, d_true, Config, ConfigError, OwnerType, RotationMode, SourceType,
};
use gitea_mirror_sync::json::Json;
use gitea_mirror_sync::source::{
    encode_path, gitbucket, gitea, github, gitlab, ListStage, ListStep, Source,
};

fn text(s: &str) -> Json {
    Json::Text(s.into())
}

fn object(members: Vec<(&str, Json)>) -> Json {
    Json::Object(members.into_iter().map(|(k, v)| (k.into(), v)).collect())
}

fn owned_by(key: &str, login: &str) -> Json {
    object(vec![("owner", object(vec![(key, text(login))]))])
}

#[test]
fn maps_gitbucket_repo() {
    let v = object(vec![
        ("name", text("r")),
        ("clone_url", text("http://gb.example/git/u/r.git")),
        ("private", Json::Bool(true)),
    ]);
    let r = gitbucket::map_repo(&v).unwrap();
    assert_eq!(r.name, "r");
    assert_eq!(r.clone_url, "http://gb.example/git/u/r.git");
    assert!(r.private);
    assert!(!r.fork);
    assert!(!r.archived);
}

#[test]
fn owner_matches_login() {
    assert!(gitbucket::owner_matches(&owned_by("login", "Acme"), "acme"));
    assert!(!gitbucket::owner_matches(&owned_by("login", "Acme"), "nope"));
}

#[test]
fn maps_gitea_repo() {
    let v = object(vec![
        ("name", text("r")),
        ("clone_url", text("https://gitea.example/r.git")),
        ("private", Json::Bool(false)),
        ("fork", Json::Bool(true)),
        ("archived", Json::Bool(false)),
    ]);
    let r = gitea::map_repo(&v).unwrap();
    assert_eq!(r.name, "r");
    assert_eq!(r.clone_url, "https://gitea.example/r.git");
    assert!(r.fork);
    assert!(!r.private);
}

#[test]
fn owner_matches_login_or_username() {
    assert!(gitea::owner_matches(&owned_by("login", "Org"), "org"));
    assert!(gitea::owner_matches(&owned_by("username", "Bob"), "bob"));
    assert!(!gitea::owner_matches(&owned_by("username", "bob"), "alice"));
}

#[test]
fn maps_github_repo() {
    let v = object(vec![
        ("name", text("hello")),
        ("clone_url", text("https://github.com/me/hello.git")),
        ("private", Json::Bool(true)),
        ("fork", Json::Bool(false)),
        ("archived", Json::Bool(true)),
        ("description", text("hi")),
    ]);
    let r = github::map_repo(&v).unwrap();
    assert_eq!(r.name, "hello");
    assert_eq!(r.clone_url, "https://github.com/me/hello.git");
    assert!(r.private);
    assert!(!r.fork);
    assert!(r.archived);
    assert_eq!(r.description.as_deref(), Some("hi"));
}

#[test]
fn map_repo_requires_name_and_clone_url() {
    assert!(github::map_repo(&object(vec![("name", text("x"))])).is_none());
    assert!(github::map_repo(&object(vec![("clone_url", text("u"))])).is_none());
}

#[test]
fn owner_matches_is_case_insensitive() {
    assert!(github::owner_matches(&owned_by("login", "MyOrg"), "myorg"));
    assert!(!github::owner_matches(&owned_by("login", "MyOrg"), "other"));
    assert!(!github::owner_matches(&object(vec![]), "x"));
}

#[test]
fn maps_gitlab_project_uses_path() {
    let v = object(vec![
        ("path", text("my-proj")),
        ("name", text("My Proj")),
        ("http_url_to_repo", text("https://gitlab.com/g/my-proj.git")),
        ("visibility", text("private")),
        ("archived", Json::Bool(true)),
        ("forked_from_project", object(vec![("id", Json::Number("1".into()))])),
        ("description", text("d")),
    ]);
    let r = gitlab::map_repo(&v).unwrap();
    assert_eq!(r.name, "my-proj"); // path, not display name
    assert_eq!(r.clone_url, "https://gitlab.com/g/my-proj.git");
    assert!(r.private);
    assert!(r.fork);
    assert!(r.archived);
}

#[test]
fn public_project_not_private_not_fork() {
    let v = object(vec![
        ("path", text("p")),
        ("http_url_to_repo", text("u")),
        ("visibility", text("public")),
    ]);
    let r = gitlab::map_repo(&v).unwrap();
    assert!(!r.private);
    assert!(!r.fork);
    assert!(!r.archived);
}

#[test]
fn missing_visibility_defaults_private() {
    let v = object(vec![("path", text("p")), ("http_url_to_repo", text("u"))]);
    assert!(gitlab::map_repo(&v).unwrap().private);
}

#[test]
fn a_null_origin_makes_no_fork() {
    let v = object(vec![
        ("path", text("p")),
        ("http_url_to_repo", text("u")),
        ("forked_from_project", Json::Null),
    ]);
    assert!(!gitlab::map_repo(&v).unwrap().fork);
}

#[test]
fn slashes_and_spaces_are_encoded_in_a_path() {
    assert_eq!(encode_path("group/sub group"), "group%2Fsub%20group");
    assert_eq!(encode_path("//"), "%2F%2F");
    assert_eq!(encode_path("plain"), "plain");
    assert_eq!(encode_path("a/b c"), encode_path("a/") + &encode_path("b c"));
    assert_ne!(encode_path("a/b"), encode_path("a b"));
    assert_eq!(encode_path(""), "");
}

fn settings(kind: SourceType, url: Option<&str>, owner: &str) -> Config {
    Config {
        target_url: "https://gitea.example.com".into(),
        target_token: "t".into(),
        target_owner: "mirrors".into(),
        target_owner_type: OwnerType::Auto,
        source_type: kind,
        source_url: url.map(String::from),
        source_token: "s3".into(),
        source_owner: owner.into(),
        source_owner_type: OwnerType::Auto,
        cron: "0 0 * * * *".into(),
        filter_include: None,
        filter_exclude: None,
        filter_limit: None,
        skip_forks: false,
        skip_archived: false,
        include_private: true,
        mirror_interval: "8h0m0s".into(),
        mirror_private: true,
        trigger_sync: false,
        rotation_mode: RotationMode::Auto,
        state_file: "gms-state.json".into(),
    }
}

fn source(kind: SourceType, url: Option<&str>, owner: &str) -> Source {
    Source::from_config(&settings(kind, url, owner)).unwrap()
}

fn base_of(kind: SourceType, url: Option<&str>) -> String {
    settings(kind, url, "me").source_api_base().unwrap()
}

#[test]
fn the_api_path_is_added_to_a_bare_host() {
    assert_eq!(base_of(SourceType::Github, None), "https://api.github.com");
    assert_eq!(base_of(SourceType::Github, Some("https://ghe.example/api/v3/")), "https://ghe.example/api/v3");
    assert_eq!(base_of(SourceType::Gitlab, None), "https://gitlab.com/api/v4");
    assert_eq!(base_of(SourceType::Gitlab, Some("https://gl.example//")), "https://gl.example/api/v4");
    assert_eq!(base_of(SourceType::Gitlab, Some("https://gl.example/api/v3")), "https://gl.example/api/v3");
    assert_eq!(base_of(SourceType::Gitea, Some("https://g.example/")), "https://g.example/api/v1");
    assert_eq!(base_of(SourceType::Gitea, Some("https://g.example/api/v1")), "https://g.example/api/v1");
    assert_eq!(base_of(SourceType::Gitbucket, Some("http://gb.example")), "http://gb.example/api/v3");
    assert_eq!(base_of(SourceType::Gitbucket, Some("http://gb.example/api/v3")), "http://gb.example/api/v3");
}

#[test]
fn the_api_base_is_settled() {
    for kind in [SourceType::Github, SourceType::Gitlab, SourceType::Gitea, SourceType::Gitbucket] {
        let once = base_of(kind, Some("https://host.example/"));
        assert_eq!(base_of(kind, Some(once.as_str())), once);
        assert_eq!(base_of(kind, Some("https://host.example")), once);
        assert_eq!(base_of(kind, Some("https://host.example///")), once);
    }
}

#[test]
fn a_forge_without_a_public_host_needs_a_url() {
    let e = Source::from_config(&settings(SourceType::Gitea, None, "me")).unwrap_err();
    assert_eq!(e, ConfigError::SourceUrlRequired(SourceType::Gitea));
    assert_eq!(e.message(), "GMS_SOURCE_URL is required for source type Gitea");
    let e = settings(SourceType::Gitbucket, None, "me").source_api_base().unwrap_err();
    assert_eq!(e.message(), "GMS_SOURCE_URL is required for source type Gitbucket");
}

#[test]
fn services_and_headers_by_forge() {
    let github = source(SourceType::Github, None, "me");
    assert_eq!(github.service(), "github");
    assert_eq!(github.auth()[0], ("Authorization".into(), "Bearer s3".into()));
    assert_eq!(github.auth()[2], ("X-GitHub-Api-Version".into(), "2022-11-28".into()));
    let gitlab = source(SourceType::Gitlab, None, "me");
    assert_eq!(gitlab.service(), "gitlab");
    assert_eq!(gitlab.auth(), vec![("PRIVATE-TOKEN".to_string(), "s3".to_string())]);
    let gitea = source(SourceType::Gitea, Some("https://g.example"), "me");
    assert_eq!(gitea.service(), "gitea");
    assert_eq!(gitea.auth(), vec![("Authorization".to_string(), "token s3".to_string())]);
    assert_eq!(source(SourceType::Gitbucket, Some("http://gb"), "me").service(), "gitbucket");
}

#[test]
fn the_owner_type_is_probed_only_where_it_is_open() {
    let mut src = source(SourceType::Gitlab, None, "group/sub");
    assert_eq!(src.owner_probe().as_deref(), Some("https://gitlab.com/api/v4/groups/group%2Fsub"));
    assert_eq!(src.effective_owner_type(true), OwnerType::Org);
    assert_eq!(src.effective_owner_type(false), OwnerType::User);
    src.owner_type = OwnerType::User;
    assert!(src.owner_probe().is_none());
    assert_eq!(src.effective_owner_type(true), OwnerType::User);
    let gitea = source(SourceType::Gitea, Some("https://g.example"), "me");
    assert_eq!(gitea.owner_probe().as_deref(), Some("https://g.example/api/v1/orgs/me"));
}

fn item(name: &str, url: &str, login: &str) -> Json {
    object(vec![
        ("name", text(name)),
        ("clone_url", text(url)),
        ("owner", object(vec![("login", text(login))])),
    ])
}

fn fetched(step: ListStep) -> (String, Vec<(String, String)>) {
    match step {
        ListStep::Fetch(list) | ListStep::FetchFallback(list) => {
            let request = list.page(3);
            (request.url, request.query)
        }
        ListStep::Listed(_) => panic!("nothing to fetch"),
    }
}

fn pairs(list: &[(&str, &str)]) -> Vec<(String, String)> {
    list.iter().map(|(a, b)| (a.to_string(), b.to_string())).collect()
}

#[test]
fn an_organization_is_listed_in_one_place() {
    let src = source(SourceType::Github, None, "acme");
    let (url, query) = fetched(src.list_repos(OwnerType::Org, ListStage::Begin));
    assert_eq!(url, "https://api.github.com/orgs/acme/repos");
    assert_eq!(query, pairs(&[("per_page", "100"), ("page", "3"), ("type", "all")]));
    let items = vec![item("b", "u2", "other"), item("a", "u1", "acme"), text("no repo")];
    match src.list_repos(OwnerType::Org, ListStage::First(items)) {
        ListStep::Listed(repos) => {
            assert_eq!(repos.len(), 2);
            assert_eq!(repos[0].name, "a");
            assert_eq!(repos[1].name, "b");
        }
        step => panic!("{step:?}"),
    }
}

#[test]
fn a_user_is_listed_from_the_account_first() {
    let src = source(SourceType::Github, None, "me");
    let (url, query) = fetched(src.list_repos(OwnerType::User, ListStage::Begin));
    assert_eq!(url, "https://api.github.com/user/repos");
    assert_eq!(
        query,
        pairs(&[("per_page", "100"), ("page", "3"), ("affiliation", "owner"), ("visibility", "all")])
    );
    let items = vec![item("theirs", "u", "them"), item("mine", "u", "ME")];
    match src.list_repos(OwnerType::User, ListStage::First(items)) {
        ListStep::Listed(repos) => {
            assert_eq!(repos.len(), 1);
            assert_eq!(repos[0].name, "mine");
        }
        step => panic!("{step:?}"),
    }
}

#[test]
fn another_user_shows_public_repos() {
    let src = source(SourceType::Github, None, "me");
    let step = src.list_repos(OwnerType::User, ListStage::First(vec![item("x", "u", "them")]));
    assert!(matches!(&step, ListStep::FetchFallback(_)));
    let (url, query) = fetched(step);
    assert_eq!(url, "https://api.github.com/users/me/repos");
    assert_eq!(query, pairs(&[("per_page", "100"), ("page", "3"), ("type", "all")]));
    match src.list_repos(OwnerType::User, ListStage::Fallback(vec![item("x", "u", "them")])) {
        ListStep::Listed(repos) => assert_eq!(repos[0].name, "x"),
        step => panic!("{step:?}"),
    }
}

#[test]
fn a_gitlab_group_is_listed_with_its_subgroups() {
    let src = source(SourceType::Gitlab, None, "group/sub");
    let (url, query) = fetched(src.list_repos(OwnerType::Org, ListStage::Begin));
    assert_eq!(url, "https://gitlab.com/api/v4/groups/group%2Fsub/projects");
    assert_eq!(
        query,
        pairs(&[("per_page", "100"), ("page", "3"), ("include_subgroups", "true"), ("with_shared", "false")])
    );
    let (url, _) = fetched(src.list_repos(OwnerType::User, ListStage::Begin));
    assert_eq!(url, "https://gitlab.com/api/v4/users/group%2Fsub/projects");
}

#[test]
fn a_name_that_a_forge_lists_twice_counts_once() {
    let src = source(SourceType::Gitea, Some("https://g.example"), "acme");
    let items = vec![item("b", "u1", "acme"), item("a", "first", "acme"), item("a", "second", "acme")];
    match src.list_repos(OwnerType::Org, ListStage::First(items)) {
        ListStep::Listed(repos) => {
            assert_eq!(repos.len(), 2);
            assert_eq!(repos[0].clone_url, "first");
            assert_eq!(repos[1].name, "b");
        }
        step => panic!("{step:?}"),
    }
}

#[test]
fn of_members_with_one_name_the_last_counts() {
    let v = object(vec![("name", text("x")), ("name", text("y")), ("clone_url", text("u"))]);
    assert_eq!(github::map_repo(&v).unwrap().name, "y");
}

#[test]
fn settings_that_are_left_out_have_defaults() {
    assert_eq!(d_cron(), "0 0 * * * *");
    assert_eq!(d_interval(), "8h0m0s");
    assert_eq!(d_state(), "gms-state.json");
    assert!(d_true());
    assert_eq!(OwnerType::default(), OwnerType::Auto);
    assert_eq!(RotationMode::default(), RotationMode::Auto);
}
