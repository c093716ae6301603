use gitea_mirror_sync::config::{Config, OwnerType, RotationMode, SourceType};
use gitea_mirror_sync::filter::{FilterError, Filters};
use gitea_mirror_sync::source::SourceRepo;

fn repo(name: &str) -> SourceRepo {
    SourceRepo {
        name: name.into(),
        clone_url: format!("https://example.com/{name}.git"),
        private: false,
        fork: false,
        archived: false,
        description: None,
    }
}

fn base() -> Config {
    Config {
        target_url: "https://gitea.example.com".into(),
        target_token: "t".into(),
        target_owner: "mirrors".into(),
        target_owner_type: OwnerType::Auto,
        source_type: SourceType::Github,
        source_url: None,
        source_token: "s".into(),
        source_owner: "me".into(),
        source_owner_type: OwnerType::Auto,
        cron: "0 0 * * * *".into(),
        filter_include: None,
        filter_exclude: None,
        filter_limit: None,
        skip_forks: false,
        skip_archived: false,
        include_private: true,
        mirror_interval: "8h0m0s".into(),
        mirror_private: true,
        trigger_sync: false,
        rotation_mode: RotationMode::Auto,
        state_file: "gms-state.json".into(),
    }
}

fn filters(cfg: &Config) -> Filters {
    Filters::from_config(cfg).unwrap()
}

fn names(repos: &[SourceRepo]) -> Vec<&str> {
    repos.iter().map(|r| r.name.as_str()).collect()
}

#[test]
fn passthrough_sorts_by_name() {
    let f = filters(&base());
    let out = f.apply(vec![repo("charlie"), repo("alpha"), repo("bravo")]);
    assert_eq!(names(&out), ["alpha", "bravo", "charlie"]);
}

#[test]
fn include_regex_keeps_only_matches() {
    let mut cfg = base();
    cfg.filter_include = Some("^app-".into());
    let out = filters(&cfg).apply(vec![repo("app-web"), repo("lib-core"), repo("app-api")]);
    assert_eq!(names(&out), ["app-api", "app-web"]);
}

#[test]
fn exclude_regex_drops_matches() {
    let mut cfg = base();
    cfg.filter_exclude = Some("-archive$".into());
    let out = filters(&cfg).apply(vec![repo("a"), repo("b-archive"), repo("c")]);
    assert_eq!(names(&out), ["a", "c"]);
}

#[test]
fn skip_flags_and_private() {
    let mut cfg = base();
    cfg.skip_forks = true;
    cfg.skip_archived = true;
    cfg.include_private = false;

    let mut a_fork = repo("a-fork");
    a_fork.fork = true;
    let mut b_arch = repo("b-arch");
    b_arch.archived = true;
    let mut c_priv = repo("c-priv");
    c_priv.private = true;

    let out = filters(&cfg).apply(vec![a_fork, b_arch, c_priv, repo("keep")]);
    assert_eq!(names(&out), ["keep"]);
}

#[test]
fn limit_applies_after_sort() {
    let mut cfg = base();
    cfg.filter_limit = Some(2);
    let out = filters(&cfg).apply(vec![repo("d"), repo("a"), repo("c"), repo("b")]);
    assert_eq!(names(&out), ["a", "b"]);
}

#[test]
fn limit_beyond_the_list_and_limit_of_none() {
    let mut cfg = base();
    cfg.filter_limit = Some(9);
    let out = filters(&cfg).apply(vec![repo("b"), repo("a")]);
    assert_eq!(names(&out), ["a", "b"]);
    cfg.filter_limit = Some(0);
    assert!(filters(&cfg).apply(vec![repo("b"), repo("a")]).is_empty());
    assert!(filters(&cfg).apply(vec![]).is_empty());
}

#[test]
fn a_pattern_matches_anywhere_in_the_name() {
    let mut cfg = base();
    cfg.filter_include = Some("b+".into());
    cfg.filter_exclude = Some("x".into());
    let out = filters(&cfg).apply(vec![repo("abbc"), repo("xbb"), repo("ac"), repo("bb")]);
    assert_eq!(names(&out), ["abbc", "bb"]);
}

#[test]
fn names_are_ordered_by_their_bytes() {
    let f = filters(&base());
    let out = f.apply(vec![repo("b"), repo("\u{e9}"), repo("B"), repo("a"), repo("ab"), repo("")]);
    assert_eq!(names(&out), ["", "B", "a", "ab", "b", "\u{e9}"]);
}

#[test]
fn repos_of_one_name_keep_their_order() {
    let f = filters(&base());
    let mut second = repo("a");
    second.clone_url = "second".into();
    let out = f.apply(vec![repo("b"), repo("a"), second]);
    assert_eq!(names(&out), ["a", "a", "b"]);
    assert_eq!(out[0].clone_url, "https://example.com/a.git");
    assert_eq!(out[1].clone_url, "second");
}

#[test]
fn the_selection_ignores_the_order_of_the_listing() {
    let mut cfg = base();
    cfg.filter_limit = Some(2);
    let f = filters(&cfg);
    let a = f.apply(vec![repo("x"), repo("y"), repo("z")]);
    let b = f.apply(vec![repo("z"), repo("x"), repo("y")]);
    assert_eq!(names(&a), ["x", "y"]);
    assert_eq!(names(&a), names(&b));
}

#[test]
fn admits_goes_by_what_the_patterns_found() {
    let mut cfg = base();
    let plain = filters(&cfg);
    assert!(plain.admits(&repo("a"), false, true));
    cfg.filter_include = Some("i".into());
    cfg.filter_exclude = Some("e".into());
    let both = filters(&cfg);
    assert!(both.admits(&repo("a"), true, false));
    assert!(!both.admits(&repo("a"), false, false));
    assert!(!both.admits(&repo("a"), true, true));
}

#[test]
fn patterns_that_do_not_compile_are_reported() {
    let mut cfg = base();
    cfg.filter_include = Some("(".into());
    cfg.filter_exclude = Some("[".into());
    let e = Filters::from_config(&cfg).unwrap_err();
    assert!(matches!(&e, FilterError::Include(_)));
    assert!(e.message().starts_with("compiling GMS_FILTER_INCLUDE: regex parse error"));
    cfg.filter_include = Some("a".into());
    let e = Filters::from_config(&cfg).unwrap_err();
    assert!(matches!(&e, FilterError::Exclude(_)));
    assert!(e.message().starts_with("compiling GMS_FILTER_EXCLUDE: regex parse error"));
    assert_eq!(FilterError::Exclude("why".into()).message(), "compiling GMS_FILTER_EXCLUDE: why");
}

#[test]
fn selecting_twice_changes_nothing_and_a_limit_takes_the_first() {
    let mut cfg = base();
    cfg.filter_exclude = Some("x".into());
    let all = || vec![repo("d"), repo("ax"), repo("c"), repo("b"), repo("c")];
    let unlimited = filters(&cfg).apply(all());
    assert_eq!(names(&unlimited), ["b", "c", "c", "d"]);
    cfg.filter_limit = Some(3);
    let f = filters(&cfg);
    let once = f.apply(all());
    assert_eq!(names(&once), names(&unlimited[..3]));
    let twice = f.apply(once.clone());
    assert_eq!(names(&twice), names(&once));
    let mut turned = all();
    turned.reverse();
    assert_eq!(names(&f.apply(turned)), names(&once));
}
