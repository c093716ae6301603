use gitea_mirror_sync::config::OwnerType;
use gitea_mirror_sync::http::{Method, Request};
use gitea_mirror_sync::json::Json;
use gitea_mirror_sync::target::{swagger_has_mirror_token, Answer, Repo, Target};

fn text(s: &str) -> Json {
    Json::Text(s.into())
}

fn object(members: Vec<(&str, Json)>) -> Json {
    Json::Object(members.into_iter().map(|(k, v)| (k.into(), v)).collect())
}

fn swagger(properties: Vec<(&str, Json)>) -> Json {
    object(vec![(
        "definitions",
        object(vec![(
            "EditRepoOption",
            object(vec![("properties", object(properties))]),
        )]),
    )])
}

fn string_type() -> Json {
    object(vec![("type", text("string"))])
}

#[test]
fn swagger_detects_mirror_token() {
    let with = swagger(vec![("mirror_interval", string_type()), ("mirror_token", string_type())]);
    let without = swagger(vec![("mirror_interval", string_type())]);
    assert!(swagger_has_mirror_token(&with));
    assert!(!swagger_has_mirror_token(&without));
    assert!(!swagger_has_mirror_token(&object(vec![])));
}

#[test]
fn repo_deserializes_with_defaults() {
    // A converted/normal repo: only some fields present.
    let r = Repo::from_json(&object(vec![
        ("name", text("x")),
        ("original_url", text("https://src/x.git")),
    ]))
    .unwrap();
    assert_eq!(r.name, "x");
    assert!(!r.mirror); // defaulted
    assert_eq!(r.original_url, "https://src/x.git");

    let m = Repo::from_json(&object(vec![
        ("name", text("y")),
        ("mirror", Json::Bool(true)),
        ("private", Json::Bool(true)),
        ("original_url", text("")),
    ]))
    .unwrap();
    assert!(m.mirror);
    assert!(m.private);
}

#[test]
fn a_repo_of_the_wrong_shape_is_passed_over() {
    let items = vec![
        object(vec![("name", text("ok"))]),
        object(vec![("mirror", Json::Bool(true))]),
        object(vec![("name", Json::Number("3".into()))]),
        object(vec![("name", text("z")), ("mirror", Json::Null)]),
        object(vec![("name", text("z")), ("original_url", Json::Null)]),
        Json::Null,
        text("name"),
        Json::List(vec![text("listed"), Json::Bool(true)]),
        Json::List(vec![]),
        Json::List(vec![text("a"), Json::Bool(true), text("u"), Json::Bool(true), Json::Null]),
    ];
    let repos = Target::listed_repos(&items);
    assert_eq!(repos.len(), 2);
    assert_eq!(repos[0], Repo { name: "ok".into(), mirror: false, original_url: "".into(), private: false });
    assert_eq!(repos[1], Repo { name: "listed".into(), mirror: true, original_url: "".into(), private: false });
}

fn target() -> Target {
    Target::new("https://gitea.example.com//", "t1", "mirrors")
}

fn authorized() -> Vec<(String, String)> {
    vec![("Authorization".to_string(), "token t1".to_string())]
}

fn asks(r: &Request, method: Method, url: &str, with_token: bool) {
    assert_eq!(r.method, method);
    assert_eq!(r.url, url);
    assert_eq!(r.headers, if with_token { authorized() } else { vec![] });
    assert!(r.query.is_empty());
}

#[test]
fn the_probes_of_the_target() {
    let t = target();
    asks(&t.version_probe(), Method::Get, "https://gitea.example.com/api/v1/version", true);
    asks(&t.forgejo_probe(), Method::Get, "https://gitea.example.com/api/forgejo/v1/version", false);
    asks(&t.probe_patch_support(), Method::Get, "https://gitea.example.com/swagger.v1.json", false);
    asks(&t.org_probe(), Method::Get, "https://gitea.example.com/api/v1/orgs/mirrors", true);
}

fn answer(code: u16, document: Option<Json>) -> Option<Answer> {
    Some(Answer { code, document })
}

fn version_document() -> Option<Json> {
    Some(object(vec![("version", text("1.27.0"))]))
}

#[test]
fn capabilities_come_from_the_probes() {
    let doc = Some(swagger(vec![("mirror_token", string_type())]));
    let caps = Target::detect(
        OwnerType::Auto,
        &answer(200, version_document()),
        &answer(404, None),
        &answer(200, doc),
        &answer(200, None),
    );
    assert_eq!(caps.version, "1.27.0");
    assert!(!caps.is_forgejo);
    assert!(caps.supports_pull_mirror_patch);
    assert!(caps.owner_is_org);
    let caps = Target::detect(OwnerType::User, &None, &answer(204, None), &None, &answer(200, None));
    assert_eq!(caps.version, "");
    assert!(caps.is_forgejo);
    assert!(!caps.supports_pull_mirror_patch);
    assert!(!caps.owner_is_org);
    assert!(Target::detect(OwnerType::Org, &None, &None, &None, &None).owner_is_org);
    assert!(!Target::detect(OwnerType::Auto, &None, &None, &None, &None).owner_is_org);
}

#[test]
fn a_failed_probe_falls_back_to_the_safe_default() {
    let doc = Some(swagger(vec![("mirror_token", string_type())]));
    let caps = Target::detect(
        OwnerType::Auto,
        &answer(500, version_document()),
        &answer(500, None),
        &answer(404, doc),
        &answer(403, None),
    );
    assert_eq!(caps.version, "");
    assert!(!caps.is_forgejo);
    assert!(!caps.supports_pull_mirror_patch);
    assert!(!caps.owner_is_org);
    let no_text = Some(object(vec![("version", Json::Null)]));
    assert_eq!(Target::detect(OwnerType::User, &answer(200, no_text), &None, &None, &None).version, "");
}

#[test]
fn the_list_of_the_target() {
    let list = target().list_repos(true);
    assert_eq!(list.page_size, 50);
    assert_eq!(list.max_pages, 500);
    let page = list.page(12);
    assert_eq!(page.url, "https://gitea.example.com/api/v1/orgs/mirrors/repos");
    assert_eq!(page.headers, authorized());
    assert_eq!(
        page.query,
        vec![("limit".to_string(), "50".to_string()), ("page".to_string(), "12".to_string())]
    );
    assert_eq!(
        target().list_repos(false).page(1).url,
        "https://gitea.example.com/api/v1/users/mirrors/repos"
    );
}

#[test]
fn the_body_of_a_migration() {
    let r = target().migrate("https://src/x.git", "x", "github", "s3", "8h0m0s", true, &Some("d".to_string()));
    asks(&r, Method::Post, "https://gitea.example.com/api/v1/repos/migrate", true);
    assert_eq!(
        r.body,
        Some(object(vec![
            ("clone_addr", text("https://src/x.git")),
            ("repo_name", text("x")),
            ("repo_owner", text("mirrors")),
            ("service", text("github")),
            ("mirror", Json::Bool(true)),
            ("mirror_interval", text("8h0m0s")),
            ("auth_token", text("s3")),
            ("private", Json::Bool(true)),
            ("description", text("d")),
            ("wiki", Json::Bool(false)),
            ("lfs", Json::Bool(false)),
        ]))
    );
    let r = target().migrate("u", "x", "gitea", "s3", "1h", false, &None);
    assert_eq!(r.body.unwrap().get("description"), Some(&text("")));
}

#[test]
fn the_calls_on_one_repository() {
    let t = target();
    let url = "https://gitea.example.com/api/v1/repos/mirrors/x";
    asks(&t.delete("x"), Method::Delete, url, true);
    assert!(t.delete("x").body.is_none());
    let patch = t.patch_mirror_token("x", "new");
    asks(&patch, Method::Patch, url, true);
    assert_eq!(patch.body, Some(object(vec![("mirror_token", text("new"))])));
    asks(&t.trigger_sync("x"), Method::Post, "https://gitea.example.com/api/v1/repos/mirrors/x/mirror-sync", true);
}
