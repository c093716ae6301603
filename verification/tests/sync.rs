use gitea_mirror_sync::config::{Config, OwnerType, RotationMode, SourceType};
use gitea_mirror_sync::filter::Filters;
use gitea_mirror_sync::http::Method;
use gitea_mirror_sync::json::Json;
use gitea_mirror_sync::source::{Source, SourceRepo};
use gitea_mirror_sync::state::{fingerprint, State, StateRecord};
use gitea_mirror_sync::sync::{
    rotation_falls_back, Action, Call, Engine, Event, Migration, Progress, Summary,
};
use gitea_mirror_sync::target::{Capabilities, Repo, Target};

fn settings() -> Config {
    Config {
        target_url: "https://gitea.example.com".into(),
        target_token: "t".into(),
        target_owner: "mirrors".into(),
        target_owner_type: OwnerType::Auto,
        source_type: SourceType::Github,
        source_url: None,
        source_token: "s3".into(),
        source_owner: "me".into(),
        source_owner_type: OwnerType::Auto,
        cron: "0 0 * * * *".into(),
        filter_include: None,
        filter_exclude: None,
        filter_limit: None,
        skip_forks: false,
        skip_archived: false,
        include_private: true,
        mirror_interval: "8h0m0s".into(),
        mirror_private: true,
        trigger_sync: false,
        rotation_mode: RotationMode::Auto,
        state_file: "gms-state.json".into(),
    }
}

fn caps(patch: bool) -> Capabilities {
    Capabilities {
        version: "1.27.0".into(),
        is_forgejo: false,
        supports_pull_mirror_patch: patch,
        owner_is_org: true,
    }
}

fn on_target(name: &str, mirror: bool, original_url: &str) -> Repo {
    Repo { name: name.into(), mirror, original_url: original_url.into(), private: false }
}

fn on_source(name: &str) -> SourceRepo {
    SourceRepo {
        name: name.into(),
        clone_url: format!("https://src/{name}.git"),
        private: false,
        fork: false,
        archived: false,
        description: Some("d".into()),
    }
}

fn state(managed: &[&str], blacklist: &[&str], token: Option<&str>) -> State {
    State::load(Some(StateRecord {
        managed: managed.iter().map(|n| n.to_string()).collect(),
        blacklist: blacklist.iter().map(|n| n.to_string()).collect(),
        token_fingerprint: token.map(fingerprint),
    }))
}

/// What a pass did: the calls it made, how often it saved, and its summary where it
/// did not fail.
#[derive(Debug)]
struct Pass {
    calls: Vec<Call>,
    saves: usize,
    summary: Option<Summary>,
}

/// Makes a pass. The calls that are in `failing` by their number fail.
fn pass(
    cfg: &Config,
    patch: bool,
    state: &mut State,
    startup: bool,
    target: Vec<Repo>,
    source: Vec<SourceRepo>,
    failing: &[usize],
) -> Pass {
    let filters = Filters::from_config(cfg).unwrap();
    let source_forge = Source::from_config(cfg).unwrap();
    let target_forge = Target::new(&cfg.target_url, &cfg.target_token, &cfg.target_owner);
    let caps = caps(patch);
    let engine =
        Engine { cfg, target: &target_forge, source: &source_forge, filters: &filters, caps: &caps };
    let mut target = Some(target);
    let mut source = Some(source);
    let mut done = Pass { calls: vec![], saves: 0, summary: None };
    let mut progress = Progress::new(startup);
    let mut event = Event::Start;
    loop {
        let (next, action) = engine.reconcile(progress, state, event);
        progress = next;
        event = match action {
            Action::ListTarget => Event::TargetListed(target.take().unwrap()),
            Action::ListSource => Event::SourceListed(source.take().unwrap()),
            Action::SaveState => {
                done.saves += 1;
                Event::Succeeded
            }
            Action::Call(call) => {
                let fails = failing.contains(&done.calls.len());
                done.calls.push(call);
                if fails { Event::Failed } else { Event::Succeeded }
            }
            Action::Finish(summary) => {
                done.summary = Some(summary);
                return done;
            }
            Action::Fail => return done,
        };
    }
}

fn new_mirror(name: &str, private: bool) -> Call {
    Call::Migrate(Migration {
        clone_addr: format!("https://src/{name}.git"),
        name: name.into(),
        private,
        description: Some("d".into()),
    })
}

fn again(name: &str, url: &str, private: bool) -> Call {
    Call::Migrate(Migration { clone_addr: url.into(), name: name.into(), private, description: None })
}

fn names(set: &gitea_mirror_sync::names::NameSet) -> Vec<String> {
    set.to_vec()
}

#[test]
fn missing_mirrors_are_created_in_order() {
    let mut st = state(&[], &[], None);
    let done = pass(&settings(), true, &mut st, true, vec![], vec![on_source("b"), on_source("a")], &[]);
    assert_eq!(done.calls, vec![new_mirror("a", true), new_mirror("b", true)]);
    assert_eq!(done.summary, Some(Summary { created: 2, adopted: 0, skipped: 0 }));
    assert_eq!(done.saves, 2); // the first token, and the end of the pass
    assert_eq!(names(&st.managed), ["a", "b"]);
    assert_eq!(st.token_fingerprint, Some(fingerprint("s3")));
}

#[test]
fn a_mirror_follows_the_source_unless_forced_private() {
    let mut cfg = settings();
    cfg.mirror_private = false;
    let mut secret = on_source("b");
    secret.private = true;
    let mut st = state(&[], &[], None);
    let done = pass(&cfg, true, &mut st, false, vec![], vec![on_source("a"), secret], &[]);
    assert_eq!(done.calls, vec![new_mirror("a", false), new_mirror("b", true)]);
    assert_eq!(st.token_fingerprint, None); // no startup, no token check
    assert_eq!(done.saves, 1);
}

#[test]
fn existing_mirrors_are_adopted_and_other_repos_left_alone() {
    let mut st = state(&["known"], &[], Some("s3"));
    let target = vec![
        on_target("known", true, "u"),
        on_target("stray", true, "u"),
        on_target("plain", false, ""),
    ];
    let source = vec![on_source("known"), on_source("stray"), on_source("plain")];
    let done = pass(&settings(), true, &mut st, true, target, source, &[]);
    assert!(done.calls.is_empty());
    assert_eq!(done.summary, Some(Summary { created: 0, adopted: 1, skipped: 1 }));
    assert_eq!(names(&st.managed), ["known", "stray"]);
}

#[test]
fn what_the_user_broke_is_blacklisted_and_never_recreated() {
    let mut st = state(&["converted", "deleted", "healthy"], &[], Some("s3"));
    let target = || vec![on_target("converted", false, ""), on_target("healthy", true, "u")];
    let source = || vec![on_source("converted"), on_source("deleted"), on_source("healthy")];
    let done = pass(&settings(), true, &mut st, false, target(), source(), &[]);
    assert!(done.calls.is_empty());
    assert_eq!(done.summary, Some(Summary { created: 0, adopted: 0, skipped: 0 }));
    assert_eq!(names(&st.managed), ["healthy"]);
    assert_eq!(names(&st.blacklist), ["converted", "deleted"]);
    let mut st = State::load(Some(st.save()));
    for startup in [true, false] {
        let done = pass(&settings(), true, &mut st, startup, vec![], source(), &[]);
        assert!(done.calls.is_empty());
    }
    assert_eq!(names(&st.blacklist), ["converted", "deleted", "healthy"]);
}

#[test]
fn an_unchanged_token_rotates_nothing() {
    let mut st = state(&["a"], &[], Some("s3"));
    let done = pass(&settings(), true, &mut st, true, vec![on_target("a", true, "u")], vec![], &[]);
    assert!(done.calls.is_empty());
    assert_eq!(done.saves, 1);
}

#[test]
fn a_new_token_is_patched_where_that_is_supported() {
    let mut st = state(&["b", "a", "gone", "plain"], &[], Some("old"));
    let target =
        vec![on_target("a", true, ""), on_target("b", true, "u"), on_target("plain", false, "u")];
    let done = pass(&settings(), true, &mut st, true, target, vec![], &[]);
    assert_eq!(done.calls, vec![Call::PatchToken("a".into()), Call::PatchToken("b".into())]);
    assert_eq!(st.token_fingerprint, Some(fingerprint("s3")));
    assert_eq!(done.saves, 2);
    assert_eq!(names(&st.managed), ["a", "b"]);
    assert_eq!(names(&st.blacklist), ["gone", "plain"]);
}

#[test]
fn without_support_mirrors_are_deleted_and_recreated() {
    let mut st = state(&["a", "b"], &[], Some("old"));
    let target = || vec![on_target("a", true, "ua"), on_target("b", true, "")];
    let done = pass(&settings(), false, &mut st, true, target(), vec![], &[]);
    assert_eq!(done.calls, vec![Call::Delete("a".into()), again("a", "ua", true)]);
    assert_eq!(names(&st.managed), ["a", "b"]);

    let mut cfg = settings();
    cfg.rotation_mode = RotationMode::Recreate;
    let mut st = state(&["a", "b"], &[], Some("old"));
    let done = pass(&cfg, true, &mut st, true, target(), vec![], &[]);
    assert_eq!(done.calls, vec![Call::Delete("a".into()), again("a", "ua", true)]);
}

#[test]
fn a_recreated_mirror_is_private_where_every_mirror_is_to_be() {
    let target = || {
        let mut secret = on_target("b", true, "ub");
        secret.private = true;
        vec![on_target("a", true, "ua"), secret]
    };
    for forced in [true, false] {
        let mut cfg = settings();
        cfg.mirror_private = forced;
        let mut st = state(&["a", "b"], &[], Some("old"));
        let done = pass(&cfg, false, &mut st, true, target(), vec![], &[]);
        assert_eq!(
            done.calls,
            vec![
                Call::Delete("a".into()),
                again("a", "ua", forced),
                Call::Delete("b".into()),
                again("b", "ub", true),
            ]
        );
    }
}

#[test]
fn a_failed_patch_falls_back_to_recreating() {
    let mut st = state(&["a", "b", "c"], &[], Some("old"));
    let target =
        vec![on_target("a", true, "ua"), on_target("b", true, ""), on_target("c", true, "uc")];
    let done = pass(&settings(), true, &mut st, true, target, vec![], &[0, 3]);
    assert_eq!(
        done.calls,
        vec![
            Call::PatchToken("a".into()),
            Call::Delete("a".into()),
            again("a", "ua", true),
            Call::PatchToken("b".into()), // fails, and there is no URL to recreate it from
            Call::PatchToken("c".into()),
        ]
    );
    assert!(done.summary.is_some());
    assert_eq!(st.token_fingerprint, Some(fingerprint("s3")));
}

#[test]
fn a_failed_recreation_ends_the_pass_and_is_repeated() {
    let mut st = state(&["a"], &[], Some("old"));
    let target = || vec![on_target("a", true, "ua")];
    let done = pass(&settings(), false, &mut st, true, target(), vec![], &[0]);
    assert_eq!(done.calls, vec![Call::Delete("a".into())]);
    assert!(done.summary.is_none());
    assert_eq!(done.saves, 0);
    assert_eq!(st.token_fingerprint, Some(fingerprint("old")));
    let done = pass(&settings(), false, &mut st, true, target(), vec![], &[1]);
    assert_eq!(done.calls, vec![Call::Delete("a".into()), again("a", "ua", true)]);
    assert!(done.summary.is_none());
    let done = pass(&settings(), false, &mut st, true, target(), vec![], &[]);
    assert_eq!(done.calls, vec![Call::Delete("a".into()), again("a", "ua", true)]);
    assert_eq!(st.token_fingerprint, Some(fingerprint("s3")));
}

#[test]
fn warn_mode_makes_no_calls_but_records_the_token() {
    let mut cfg = settings();
    cfg.rotation_mode = RotationMode::Warn;
    let mut st = state(&["a"], &[], Some("old"));
    let done = pass(&cfg, true, &mut st, true, vec![on_target("a", true, "u")], vec![], &[]);
    assert!(done.calls.is_empty());
    assert_eq!(st.token_fingerprint, Some(fingerprint("s3")));
}

#[test]
fn the_token_is_checked_on_startup_only() {
    let mut st = state(&["a"], &[], Some("old"));
    let done = pass(&settings(), true, &mut st, false, vec![on_target("a", true, "u")], vec![], &[]);
    assert!(done.calls.is_empty());
    assert_eq!(st.token_fingerprint, Some(fingerprint("old")));
}

#[test]
fn a_failed_migration_ends_the_pass_and_keeps_what_was_done() {
    let mut st = state(&[], &[], Some("s3"));
    let source = vec![on_source("a"), on_source("b"), on_source("c")];
    let done = pass(&settings(), true, &mut st, true, vec![], source, &[1]);
    assert_eq!(done.calls, vec![new_mirror("a", true), new_mirror("b", true)]);
    assert!(done.summary.is_none());
    assert_eq!(done.saves, 0);
    assert_eq!(names(&st.managed), ["a"]);
}

#[test]
fn syncs_are_triggered_where_set_and_may_fail() {
    let mut cfg = settings();
    cfg.trigger_sync = true;
    let mut st = state(&["a"], &[], Some("s3"));
    let target = vec![on_target("a", true, "u"), on_target("b", true, "u")];
    let source = vec![on_source("a"), on_source("b"), on_source("c")];
    let done = pass(&cfg, true, &mut st, true, target, source, &[0]);
    assert_eq!(
        done.calls,
        vec![Call::TriggerSync("a".into()), Call::TriggerSync("b".into()), new_mirror("c", true)]
    );
    assert_eq!(done.summary, Some(Summary { created: 1, adopted: 1, skipped: 0 }));
}

#[test]
fn managed_mirrors_outside_the_selection_are_synced_too() {
    let mut cfg = settings();
    cfg.trigger_sync = true;
    cfg.filter_include = Some("^app-".into());
    let mut st = state(&["z", "app-a", "lib", "gone"], &["banned"], Some("s3"));
    let target = || {
        vec![
            on_target("app-a", true, "u"),
            on_target("banned", true, "u"),
            on_target("lib", true, "u"),
            on_target("stray", true, "u"),
            on_target("z", true, "u"),
        ]
    };
    let source = || vec![on_source("app-b"), on_source("app-a"), on_source("lib")];
    let sync = |name: &str| Call::TriggerSync(name.into());
    let done = pass(&cfg, true, &mut st, false, target(), source(), &[2]);
    assert_eq!(done.calls, vec![sync("app-a"), new_mirror("app-b", true), sync("lib"), sync("z")]);
    assert_eq!(done.summary, Some(Summary { created: 1, adopted: 0, skipped: 0 }));
    assert_eq!(done.saves, 1);
    assert_eq!(names(&st.managed), ["app-a", "app-b", "lib", "z"]);

    cfg.trigger_sync = false;
    let mut st = state(&["lib"], &[], Some("s3"));
    let done = pass(&cfg, true, &mut st, false, target(), vec![], &[]);
    assert!(done.calls.is_empty());
}

#[test]
fn a_mirror_selected_twice_is_synced_once() {
    let mut cfg = settings();
    cfg.trigger_sync = true;
    let mut st = state(&[], &[], Some("s3"));
    let source = vec![on_source("a"), on_source("a")];
    let done = pass(&cfg, true, &mut st, false, vec![on_target("a", true, "u")], source, &[]);
    assert_eq!(done.calls, vec![Call::TriggerSync("a".into())]);
    assert_eq!(done.summary, Some(Summary { created: 0, adopted: 1, skipped: 0 }));
}

#[test]
fn of_repos_with_one_name_the_last_listed_counts() {
    let mut st = state(&["a"], &[], Some("s3"));
    let target = vec![on_target("a", false, "u"), on_target("a", true, "u")];
    let _ = pass(&settings(), true, &mut st, true, target, vec![], &[]);
    assert_eq!(names(&st.managed), ["a"]);
    assert!(st.blacklist.is_empty());
}

#[test]
fn a_second_pass_changes_nothing() {
    let mut st = state(&[], &[], None);
    let source = || vec![on_source("a"), on_source("b"), on_source("plain")];
    let before = vec![on_target("plain", false, "")];
    let after =
        vec![on_target("plain", false, ""), on_target("a", true, "ua"), on_target("b", true, "ub")];
    let _ = pass(&settings(), true, &mut st, true, before, source(), &[]);
    let once = st.save();
    let done = pass(&settings(), true, &mut st, true, after, source(), &[]);
    assert!(done.calls.is_empty());
    assert_eq!(st.save(), once);
}

#[test]
fn each_missing_mirror_is_migrated_once_and_in_order() {
    let mut st = state(&["gone"], &["banned"], Some("s3"));
    let target = vec![on_target("here", true, "u"), on_target("plain", false, "")];
    let source = ["plain", "c", "gone", "a", "here", "banned", "b"].map(on_source).to_vec();
    let done = pass(&settings(), true, &mut st, false, target, source, &[]);
    assert_eq!(done.calls, vec![new_mirror("a", true), new_mirror("b", true), new_mirror("c", true)]);
    assert_eq!(names(&st.blacklist), ["banned", "gone"]);
}

#[test]
fn no_call_names_what_is_blacklisted_at_the_end() {
    let mut cfg = settings();
    cfg.trigger_sync = true;
    for startup in [false, true] {
        let mut st = state(&["a", "b", "c"], &["d"], Some("old"));
        let target = vec![on_target("a", true, "u"), on_target("b", false, ""), on_target("d", true, "u")];
        let source = ["a", "b", "c", "d", "e"].map(on_source).to_vec();
        let done = pass(&cfg, true, &mut st, startup, target, source, &[]);
        assert_eq!(names(&st.blacklist), ["b", "c", "d"]);
        let mut expected = vec![Call::TriggerSync("a".into()), new_mirror("e", true)];
        if startup {
            expected.insert(0, Call::PatchToken("a".into()));
        }
        assert_eq!(done.calls, expected);
    }
}

#[test]
fn an_event_that_answers_nothing_ends_the_pass() {
    let cfg = settings();
    let filters = Filters::from_config(&cfg).unwrap();
    let source = Source::from_config(&cfg).unwrap();
    let target = Target::new(&cfg.target_url, &cfg.target_token, &cfg.target_owner);
    let caps = caps(true);
    let engine = Engine { cfg: &cfg, target: &target, source: &source, filters: &filters, caps: &caps };
    let mut st = state(&["a"], &[], None);
    let (progress, action) = engine.reconcile(Progress::new(true), &mut st, Event::Start);
    assert_eq!(action, Action::ListTarget);
    let (progress, action) = engine.reconcile(progress, &mut st, Event::Failed);
    assert_eq!(action, Action::Fail);
    let (_, action) = engine.reconcile(progress, &mut st, Event::Succeeded);
    assert_eq!(action, Action::Fail);
    assert_eq!(names(&st.managed), ["a"]);
}

#[test]
fn calls_become_requests() {
    let cfg = settings();
    let filters = Filters::from_config(&cfg).unwrap();
    let source = Source::from_config(&cfg).unwrap();
    let target = Target::new(&cfg.target_url, &cfg.target_token, &cfg.target_owner);
    let caps = caps(true);
    let engine = Engine { cfg: &cfg, target: &target, source: &source, filters: &filters, caps: &caps };
    let url = "https://gitea.example.com/api/v1/repos/mirrors/a";
    let r = engine.request(&Call::PatchToken("a".into()));
    assert_eq!((r.method, r.url.as_str()), (Method::Patch, url));
    assert_eq!(r.body.unwrap().get("mirror_token"), Some(&Json::Text("s3".into())));
    let r = engine.request(&Call::Delete("a".into()));
    assert_eq!((r.method, r.url.as_str()), (Method::Delete, url));
    let r = engine.request(&Call::TriggerSync("a".into()));
    assert_eq!(r.method, Method::Post);
    assert_eq!(r.url, "https://gitea.example.com/api/v1/repos/mirrors/a/mirror-sync");
    let r = engine.request(&new_mirror("a", true));
    assert_eq!(r.url, "https://gitea.example.com/api/v1/repos/migrate");
    let body = r.body.unwrap();
    assert_eq!(body.get("service"), Some(&Json::Text("github".into())));
    assert_eq!(body.get("auth_token"), Some(&Json::Text("s3".into())));
    assert_eq!(body.get("mirror_interval"), Some(&Json::Text("8h0m0s".into())));
    assert_eq!(body.get("repo_owner"), Some(&Json::Text("mirrors".into())));
}

#[test]
fn the_check_tells_when_rotation_recreates() {
    assert!(rotation_falls_back(RotationMode::Auto, &caps(false)));
    assert!(!rotation_falls_back(RotationMode::Auto, &caps(true)));
    assert!(!rotation_falls_back(RotationMode::Recreate, &caps(false)));
    assert!(!rotation_falls_back(RotationMode::Warn, &caps(false)));
}

#[test]
fn mirrors_that_cannot_be_re_authenticated_are_left_to_the_user() {
    let mut cfg = settings();
    let repos = vec![on_target("a", true, "ua"), on_target("b", true, ""), on_target("c", false, "")];
    let left = |cfg: &Config, patch: bool, token: Option<&str>| {
        let filters = Filters::from_config(cfg).unwrap();
        let source = Source::from_config(cfg).unwrap();
        let target = Target::new(&cfg.target_url, &cfg.target_token, &cfg.target_owner);
        let caps = caps(patch);
        let engine = Engine { cfg, target: &target, source: &source, filters: &filters, caps: &caps };
        engine.left_to_user(&repos, &state(&["d", "c", "b", "a"], &[], token))
    };
    assert!(left(&cfg, true, Some("old")).is_empty());
    assert_eq!(left(&cfg, false, Some("old")), ["b"]);
    cfg.rotation_mode = RotationMode::Warn;
    assert_eq!(left(&cfg, true, Some("old")), ["a", "b"]);
    assert!(left(&cfg, true, Some("s3")).is_empty());
    assert!(left(&cfg, true, None).is_empty());
}

#[test]
fn a_step_goes_by_the_fingerprint_it_is_given() {
    let cfg = settings();
    let filters = Filters::from_config(&cfg).unwrap();
    let source = Source::from_config(&cfg).unwrap();
    let target = Target::new(&cfg.target_url, &cfg.target_token, &cfg.target_owner);
    let caps = caps(true);
    let engine = Engine { cfg: &cfg, target: &target, source: &source, filters: &filters, caps: &caps };
    let mut st = state(&["a"], &[], None);
    st.token_fingerprint = Some("f0".into());
    for (given, expected) in
        [("f0", Action::ListSource), ("f1", Action::Call(Call::PatchToken("a".into())))]
    {
        let (progress, _) = engine.advance(given, Progress::new(true), &mut st, Event::Start);
        let listed = Event::TargetListed(vec![on_target("a", true, "u")]);
        let (_, action) = engine.advance(given, progress, &mut st, listed);
        assert_eq!(action, expected);
    }
    let mut st = state(&[], &[], None);
    let (progress, _) = engine.advance("f2", Progress::new(true), &mut st, Event::Start);
    let (_, action) = engine.advance("f2", progress, &mut st, Event::TargetListed(vec![]));
    assert_eq!(action, Action::SaveState);
    assert_eq!(st.token_fingerprint.as_deref(), Some("f2"));
}
