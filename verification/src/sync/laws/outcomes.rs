//! What a pass does, told by the fields of what the forges listed and of the settings.
use super::{
    has_name, is_plain, law_calls_are_called_for, law_finished_pass_settles, lemma_mirror_advances,
    lemma_pass_on_course, lemma_was, source_was, target_was,
};
use crate::config::RotationMode;
use crate::filter::{law_selection, selected};
use crate::http::{Method, Request};
use crate::json::Json;
use crate::names::{ascending, before, bytes_before, in_order, lemma_listing_exists};
use crate::source::{service_name, SourceRepoView};
use crate::state::{fingerprint_of, StateView};
use crate::sync::{
    is_mirror, lemma_lookup_name, lookup, reaches, without_broken, Action, ActionView, Call, CallView, Engine, Event, EventView, Migration, MigrationView,
    Outcome, Progress, Reauth, Setup, StageView, Standing, Summary, Turn,
};
use crate::target::{law_migration_body, law_request_asks, law_token_body, RepoView};
use vstd::prelude::*;
use vstd::utf8::encode_utf8;

verus! {

/// Whether the repository at `i` is the one that counts under a name: no later one has
/// that name.
pub open spec fn stands_at(target: Seq<RepoView>, name: Seq<char>, i: int) -> bool {
    &&& 0 <= i < target.len()
    &&& target[i].name == name
    &&& forall|j: int| i < j < target.len() ==> (#[trigger] target[j]).name != name
}

/// Whether the target has a repository of this name.
pub open spec fn on_target(target: Seq<RepoView>, name: Seq<char>) -> bool {
    exists|i: int| 0 <= i < target.len() && (#[trigger] target[i]).name == name
}

/// Whether the repository that counts under a name is a mirror.
pub open spec fn mirror_stands(target: Seq<RepoView>, name: Seq<char>) -> bool {
    exists|i: int| #[trigger] stands_at(target, name, i) && target[i].mirror
}

/// Whether the repository that counts under a name is no mirror.
pub open spec fn plain_stands(target: Seq<RepoView>, name: Seq<char>) -> bool {
    exists|i: int| #[trigger] stands_at(target, name, i) && !target[i].mirror
}

/// A name is found on the target where a repository has it; of several the last is
/// found.
pub proof fn law_last_of_a_name_is_found(target: Seq<RepoView>, name: Seq<char>)
    ensures
        lookup(target, name) is None <==> !on_target(target, name),
        forall|i: int| #[trigger] stands_at(target, name, i) ==> lookup(target, name) == Some(target[i]),
        on_target(target, name) ==> exists|i: int| #[trigger] stands_at(target, name, i),
    decreases target.len(),
{
    if target.len() > 0 {
        let rest = target.drop_last();
        let last = target.len() - 1;
        law_last_of_a_name_is_found(rest, name);
        if target.last().name == name {
            assert(target[last].name == name);
            assert(stands_at(target, name, last));
            assert forall|i: int| #[trigger] stands_at(target, name, i) implies lookup(target, name) == Some(
                target[i],
            ) by {
                assert(target[last].name == name);
            }
        } else {
            assert forall|i: int| #[trigger] stands_at(target, name, i) == stands_at(rest, name, i) by {
                if stands_at(rest, name, i) {
                    assert forall|j: int| i < j < target.len() implies (#[trigger] target[j]).name != name by {
                        if j < rest.len() {
                            assert(rest[j].name != name);
                        }
                    }
                }
                if stands_at(target, name, i) {
                    assert forall|j: int| i < j < rest.len() implies (#[trigger] rest[j]).name != name by {
                        assert(target[j].name != name);
                    }
                }
            }
            if on_target(target, name) {
                let i = choose|i: int| 0 <= i < target.len() && (#[trigger] target[i]).name == name;
                assert(rest[i].name == name);
                let k = choose|k: int| #[trigger] stands_at(rest, name, k);
                assert(stands_at(target, name, k));
            }
            if on_target(rest, name) {
                let i = choose|i: int| 0 <= i < rest.len() && (#[trigger] rest[i]).name == name;
                assert(target[i].name == name);
            }
        }
    }
}

/// A name is that of a mirror exactly where the last repository of that name is one.
pub proof fn law_last_of_a_name_decides(target: Seq<RepoView>, name: Seq<char>)
    ensures
        is_mirror(target, name) <==> mirror_stands(target, name),
        is_plain(target, name) <==> plain_stands(target, name),
        on_target(target, name) <==> mirror_stands(target, name) || plain_stands(target, name),
        !(mirror_stands(target, name) && plain_stands(target, name)),
{
    law_last_of_a_name_is_found(target, name);
    if on_target(target, name) {
        let i = choose|i: int| #[trigger] stands_at(target, name, i);
        assert(target[i].mirror || !target[i].mirror);
    }
}

/// The decisions of an engine rest on its settings, on what the target supports, and on
/// its rules and token, each as it is.
pub proof fn law_setup_is_the_settings(engine: Engine)
    ensures
        engine.setup().rotation_mode == engine.cfg.rotation_mode,
        engine.setup().supports_patch == engine.caps.supports_pull_mirror_patch,
        engine.setup().mirror_private == engine.cfg.mirror_private,
        engine.setup().trigger_sync == engine.cfg.trigger_sync,
        engine.setup().rules == engine.filters.rules(),
        engine.setup().fingerprint == fingerprint_of(engine.cfg.source_token@),
{
}

/// A migration, a call, an action and an event hold what their fields hold.
pub proof fn law_pass_values_are_their_fields(migration: Migration, call: Call, action: Action, event: Event)
    ensures
        migration@.clone_addr == migration.clone_addr@,
        migration@.name == migration.name@,
        migration@.private == migration.private,
        migration.description matches Some(d) ==> migration@.description == Some(d@),
        migration.description is None ==> migration@.description is None,
        match call {
            Call::PatchToken(name) => call@ == CallView::PatchToken(name@) && call@.name() == name@,
            Call::Delete(name) => call@ == CallView::Delete(name@) && call@.name() == name@,
            Call::Migrate(m) => call@ == CallView::Migrate(m@) && call@.name() == m.name@,
            Call::TriggerSync(name) => call@ == CallView::TriggerSync(name@) && call@.name() == name@,
        },
        match action {
            Action::ListTarget => action@ is ListTarget,
            Action::ListSource => action@ is ListSource,
            Action::Call(c) => action@ == ActionView::Call(c@),
            Action::SaveState => action@ is SaveState,
            Action::Finish(s) => action@ == ActionView::Finish(s),
            Action::Fail => action@ is Fail,
        },
        match event {
            Event::Start => event@ is Start,
            Event::TargetListed(repos) => event@ matches EventView::TargetListed(target) && target.len()
                == repos@.len() && forall|i: int| 0 <= i < repos@.len() ==> #[trigger] target[i] == repos@[i]@,
            Event::SourceListed(repos) => event@ matches EventView::SourceListed(listed) && listed.len()
                == repos@.len() && forall|i: int| 0 <= i < repos@.len() ==> #[trigger] listed[i] == repos@[i]@,
            Event::Succeeded => event@ is Succeeded,
            Event::Failed => event@ is Failed,
        },
{
}

/// Whether the token is another one than the state remembers, and a mirror is to be
/// created again from what the target says of it.
pub open spec fn created_again(
    setup: Setup,
    startup: bool,
    state: StateView,
    target: Seq<RepoView>,
    migration: MigrationView,
    i: int,
) -> bool {
    &&& startup
    &&& state.token_fingerprint matches Some(known) && known != setup.fingerprint
    &&& setup.rotation_mode != RotationMode::Warn
    &&& state.managed.contains(migration.name)
    &&& stands_at(target, migration.name, i)
    &&& target[i].mirror
    &&& target[i].original_url.len() > 0
    &&& migration.clone_addr == target[i].original_url
    &&& migration.description is None
    &&& target[i].private ==> migration.private
    &&& migration.private ==> setup.mirror_private || target[i].private
}

/// Whether a mirror is to be created of a repository that the source listed, under a
/// name that is free on the target.
pub open spec fn created_of(
    setup: Setup,
    target: Seq<RepoView>,
    repos: Seq<SourceRepoView>,
    migration: MigrationView,
    i: int,
) -> bool {
    &&& 0 <= i < repos.len()
    &&& selected(setup.rules, repos).contains(repos[i])
    &&& !on_target(target, migration.name)
    &&& migration.name == repos[i].name
    &&& migration.clone_addr == repos[i].clone_url
    &&& migration.description == repos[i].description
    &&& repos[i].private ==> migration.private
    &&& migration.private ==> setup.mirror_private || repos[i].private
}

/// A new mirror is a repository that the source listed, or a mirror to be created again:
/// with its name, its URL and its description. Where every mirror is to be private, it
/// is; a private repository becomes a private mirror in any case, and any other does not
/// unless that is set.
pub proof fn law_new_mirror_is_what_was_listed(
    engine: Engine,
    startup: bool,
    state: StateView,
    events: Seq<EventView>,
    migration: MigrationView,
)
    requires
        state.managed.finite(),
        events.len() > 0,
        engine.setup().last_step(startup, state, events).action == ActionView::Call(
            CallView::Migrate(migration),
        ),
    ensures
        engine.cfg.mirror_private ==> migration.private,
        exists|target: Seq<RepoView>| #[trigger]
            target_was(events, target) && {
                ||| exists|i: int| #[trigger] created_again(engine.setup(), startup, state, target, migration, i)
                ||| exists|repos: Seq<SourceRepoView>, i: int|
                    #![trigger source_was(events, repos), created_of(engine.setup(), target, repos, migration, i)]
                    source_was(events, repos) && created_of(engine.setup(), target, repos, migration, i)
            },
{
    let setup = engine.setup();
    law_calls_are_called_for(setup, startup, state, events);
    if startup && exists|target: Seq<RepoView>, repo: RepoView|
        #![trigger target_was(events, target), setup.rotates(state, target, repo)]
        target_was(events, target) && setup.rotates(state, target, repo) && migration == setup.recreated(repo)
            && repo.original_url.len() > 0 {
        let (target, repo) = choose|target: Seq<RepoView>, repo: RepoView|
            #![trigger target_was(events, target), setup.rotates(state, target, repo)]
            target_was(events, target) && setup.rotates(state, target, repo) && migration == setup.recreated(
                repo,
            ) && repo.original_url.len() > 0;
        law_last_of_a_name_is_found(target, repo.name);
        let i = choose|i: int| #[trigger] stands_at(target, repo.name, i);
        assert(created_again(setup, startup, state, target, migration, i));
        assert(target_was(events, target));
    } else {
        let (target, repos, k) = choose|target: Seq<RepoView>, repos: Seq<SourceRepoView>, i: int|
            #![trigger target_was(events, target), source_was(events, repos), selected(setup.rules, repos)[i]]
            target_was(events, target) && source_was(events, repos) && 0 <= i < selected(
                setup.rules,
                repos,
            ).len() && migration == setup.new_mirror(selected(setup.rules, repos)[i]) && lookup(
                target,
                migration.name,
            ) is None;
        let r = selected(setup.rules, repos)[k];
        law_selection(setup.rules, repos);
        assert(selected(setup.rules, repos).contains(r));
        assert(repos.contains(r));
        let i = choose|i: int| 0 <= i < repos.len() && repos[i] == r;
        law_last_of_a_name_is_found(target, migration.name);
        assert(created_of(setup, target, repos, migration, i));
        assert(target_was(events, target) && source_was(events, repos));
    }
}

/// What a call says of the mirrors: a token is patched only where that is supported and
/// the mode is the automatic one, and a mirror is deleted only where it names the URL to
/// create it again from and the mode is not to warn only; both only on startup, with a
/// token that is not the known one, and only of a managed mirror. A sync is asked for
/// only where that is set, and only of a managed mirror.
pub proof fn law_calls_in_plain_terms(
    engine: Engine,
    startup: bool,
    state: StateView,
    events: Seq<EventView>,
    call: CallView,
)
    requires
        state.managed.finite(),
        events.len() > 0,
        engine.setup().last_step(startup, state, events).action == ActionView::Call(call),
    ensures
        match call {
            CallView::PatchToken(name) => {
                &&& startup
                &&& engine.cfg.rotation_mode == RotationMode::Auto
                &&& engine.caps.supports_pull_mirror_patch
                &&& state.token_fingerprint matches Some(known) && known != fingerprint_of(
                    engine.cfg.source_token@,
                )
                &&& state.managed.contains(name)
                &&& exists|target: Seq<RepoView>| #[trigger]
                    target_was(events, target) && mirror_stands(target, name)
            },
            CallView::Delete(name) => {
                &&& startup
                &&& engine.cfg.rotation_mode != RotationMode::Warn
                &&& state.token_fingerprint matches Some(known) && known != fingerprint_of(
                    engine.cfg.source_token@,
                )
                &&& state.managed.contains(name)
                &&& exists|target: Seq<RepoView>, i: int|
                    #![trigger target_was(events, target), stands_at(target, name, i)]
                    target_was(events, target) && stands_at(target, name, i) && target[i].mirror
                        && target[i].original_url.len() > 0
            },
            CallView::Migrate(_) => true,
            CallView::TriggerSync(name) => {
                &&& engine.cfg.trigger_sync
                &&& engine.setup().after(startup, state, events).1.managed.contains(name)
                &&& exists|target: Seq<RepoView>| #[trigger]
                    target_was(events, target) && mirror_stands(target, name)
            },
        },
{
    let setup = engine.setup();
    law_calls_are_called_for(setup, startup, state, events);
    match call {
        CallView::PatchToken(name) => {
            let (target, repo) = choose|target: Seq<RepoView>, repo: RepoView|
                #![trigger target_was(events, target), setup.rotates(state, target, repo)]
                target_was(events, target) && setup.rotates(state, target, repo) && repo.name == name;
            law_last_of_a_name_decides(target, name);
            assert(target_was(events, target) && mirror_stands(target, name));
        },
        CallView::Delete(name) => {
            let (target, repo) = choose|target: Seq<RepoView>, repo: RepoView|
                #![trigger target_was(events, target), setup.rotates(state, target, repo)]
                target_was(events, target) && setup.rotates(state, target, repo) && repo.name == name
                    && repo.original_url.len() > 0;
            law_last_of_a_name_is_found(target, name);
            let i = choose|i: int| #[trigger] stands_at(target, name, i);
            assert(target_was(events, target) && stands_at(target, name, i));
        },
        CallView::Migrate(_) => {},
        CallView::TriggerSync(name) => {
            let target = choose|target: Seq<RepoView>| #[trigger]
                target_was(events, target) && is_mirror(target, name);
            law_last_of_a_name_decides(target, name);
            assert(target_was(events, target) && mirror_stands(target, name));
        },
    }
}

/// A managed mirror is left to the user where the mode is to warn only, or where it can
/// neither be patched nor names the URL to create it again from; no other is.
pub proof fn law_left_to_the_user(setup: Setup, target: Seq<RepoView>, managed: Set<Seq<char>>, name: Seq<char>)
    requires
        managed.finite(),
    ensures
        setup.left_to_user(target, in_order(managed)).contains(name) <==> managed.contains(name) && exists|
            i: int,
        | #[trigger]
            stands_at(target, name, i) && target[i].mirror && (setup.rotation_mode == RotationMode::Warn
                || target[i].original_url.len() == 0 && !(setup.rotation_mode == RotationMode::Auto
                && setup.supports_patch)),
{
    let p = |n: Seq<char>| is_mirror(target, n) && !setup.needs_reauth(target, n);
    let names = in_order(managed);
    lemma_listing_exists(managed);
    assert(names.to_set().contains(name) <==> names.contains(name));
    lemma_names_kept(names, p, name);
    law_last_of_a_name_is_found(target, name);
    law_last_of_a_name_decides(target, name);
}

proof fn lemma_names_kept(names: Seq<Seq<char>>, p: spec_fn(Seq<char>) -> bool, name: Seq<char>)
    ensures
        names.filter(p).contains(name) <==> names.contains(name) && p(name),
{
    if names.filter(p).contains(name) {
        let i = choose|i: int| 0 <= i < names.filter(p).len() && names.filter(p)[i] == name;
        super::lemma_filter_member(names, p, i);
    }
    if names.contains(name) && p(name) {
        super::lemma_filter_keeps(names, p, name);
    }
}

/// The request of a call goes to the target, under its owner and the name, by the method
/// that fits, with the target's token; and what is sent is the source's token for a
/// patch, and for a new mirror all that it is to be.
pub proof fn law_requests_in_plain_terms(engine: Engine, call: CallView, r: Request)
    requires
        engine.makes(call, r),
    ensures
        r.query@.len() == 0,
        r.headers@.len() == 1,
        r.headers@[0].0@ == "Authorization"@,
        r.headers@[0].1@ == "token "@ + engine.target.token@,
        match call {
            CallView::PatchToken(name) => {
                &&& r.method == Method::Patch
                &&& r.url@ == engine.target.api@ + "/repos/"@ + engine.target.owner@ + "/"@ + name
                &&& r.body matches Some(body) && (body.member("mirror_token"@) matches Some(Json::Text(s))
                    && s@ == engine.cfg.source_token@)
            },
            CallView::Delete(name) => {
                &&& r.method == Method::Delete
                &&& r.url@ == engine.target.api@ + "/repos/"@ + engine.target.owner@ + "/"@ + name
                &&& r.body is None
            },
            CallView::Migrate(m) => {
                &&& r.method == Method::Post
                &&& r.url@ == engine.target.api@ + "/repos/migrate"@
                &&& r.body matches Some(body) && {
                    &&& body.member("clone_addr"@) matches Some(Json::Text(s)) && s@ == m.clone_addr
                    &&& body.member("repo_name"@) matches Some(Json::Text(s)) && s@ == m.name
                    &&& body.member("repo_owner"@) matches Some(Json::Text(s)) && s@ == engine.target.owner@
                    &&& body.member("service"@) matches Some(Json::Text(s)) && s@ == service_name(
                        engine.source.kind,
                    )
                    &&& body.member("auth_token"@) matches Some(Json::Text(s)) && s@
                        == engine.cfg.source_token@
                    &&& body.member("mirror_interval"@) matches Some(Json::Text(s)) && s@
                        == engine.cfg.mirror_interval@
                    &&& body.member("mirror"@) == Some(Json::Bool(true))
                    &&& body.member("private"@) == Some(Json::Bool(m.private))
                    &&& body.member("description"@) matches Some(Json::Text(s)) && match m.description {
                        Some(d) => s@ == d,
                        None => s@.len() == 0,
                    }
                    &&& body.member("wiki"@) == Some(Json::Bool(false))
                    &&& body.member("lfs"@) == Some(Json::Bool(false))
                }
            },
            CallView::TriggerSync(name) => {
                &&& r.method == Method::Post
                &&& r.url@ == engine.target.api@ + "/repos/"@ + engine.target.owner@ + "/"@ + name
                    + "/mirror-sync"@
                &&& r.body is None
            },
        },
{
    let target = *engine.target;
    match call {
        CallView::PatchToken(name) => {
            law_request_asks(target, r, Method::Patch, target.repo_url(name), true);
            law_token_body(r.body.unwrap(), engine.cfg.source_token@);
        },
        CallView::Delete(name) => {
            law_request_asks(target, r, Method::Delete, target.repo_url(name), true);
        },
        CallView::Migrate(m) => {
            law_request_asks(target, r, Method::Post, target.api@ + "/repos/migrate"@, true);
            law_migration_body(
                r.body.unwrap(),
                m.clone_addr,
                m.name,
                target.owner@,
                service_name(engine.source.kind),
                engine.cfg.source_token@,
                engine.cfg.mirror_interval@,
                m.private,
                m.description,
            );
        },
        CallView::TriggerSync(name) => {
            law_request_asks(target, r, Method::Post, target.repo_url(name) + "/mirror-sync"@, true);
        },
    }
}

/// Whether a pass has only just begun, or has had its one answer to what the target
/// holds.
spec fn target_listed_once(events: Seq<EventView>, stage: StageView) -> bool {
    &&& stage is Start <==> events.len() == 0
    &&& stage is ListingTarget <==> events.len() == 1
    &&& events.len() > 0 ==> events[0] is Start
    &&& events.len() > 1 ==> events[1] is TargetListed
    &&& forall|k: int| 0 <= k < events.len() && (#[trigger] events[k]) is TargetListed ==> k == 1
}

/// Whether the source was listed before the stage.
spec fn is_late(stage: StageView) -> bool {
    stage is Mirroring || stage is Syncing || stage is Saving
}

proof fn lemma_step_stage(setup: Setup, stage: StageView, state: StateView, event: EventView)
    ensures
        ({
            let out = setup.step(stage, state, event).stage;
            &&& !(out is Start)
            &&& out is ListingTarget ==> stage is Start && event is Start
            &&& event is TargetListed && !(out is Ended) ==> stage is ListingTarget
            &&& stage is ListingTarget && !(out is Ended) ==> event is TargetListed
            &&& stage is Start && !(out is Ended) ==> event is Start && out is ListingTarget
            &&& stage is Ended ==> out is Ended
            &&& out is Rotating ==> stage is ListingTarget || stage is Rotating
            &&& event is SourceListed && !(out is Ended) ==> stage is ListingSource
            &&& is_late(stage) ==> is_late(out) || out is Ended
        }),
{
    match (stage, event) {
        (StageView::ListingSource { target }, EventView::SourceListed(repos)) => {
            let now = Standing::fresh(state);
            lemma_mirror_advances(setup, target, selected(setup.rules, repos), 0, now);
        },
        (StageView::Mirroring { target, selected: chosen, next, synced, summary, .. }, _) => {
            let now = Standing { state, synced, summary };
            let created = now.creating(chosen[next as int].name);
            lemma_mirror_advances(setup, target, chosen, next + 1, now);
            lemma_mirror_advances(setup, target, chosen, next + 1, created);
        },
        _ => {},
    }
}

proof fn lemma_target_listed_once(setup: Setup, startup: bool, state: StateView, events: Seq<EventView>)
    ensures
        ({
            let stage = setup.after(startup, state, events).0;
            !(stage is Ended) ==> target_listed_once(events, stage)
        }),
    decreases events.len(),
{
    if events.len() > 0 {
        let rest = events.drop_last();
        let last = events.last();
        lemma_target_listed_once(setup, startup, state, rest);
        let before = setup.after(startup, state, rest);
        lemma_step_stage(setup, before.0, before.1, last);
        let stage = setup.after(startup, state, events).0;
        if !(stage is Ended) {
            assert(rest.len() > 0 ==> rest[0] == events[0]);
            assert(rest.len() > 1 ==> rest[1] == events[1]);
            assert(events[events.len() - 1] == last);
            assert forall|k: int| 0 <= k < events.len() && (#[trigger] events[k]) is TargetListed implies k
                == 1 by {
                if k < rest.len() {
                    assert(rest[k] == events[k]);
                }
            }
        }
    }
}

/// Of what a pass goes by, the second event is the listing of the target.
proof fn lemma_target_is_second(
    setup: Setup,
    startup: bool,
    state: StateView,
    events: Seq<EventView>,
    target: Seq<RepoView>,
)
    requires
        !(setup.after(startup, state, events).0 is Ended),
        target_was(events, target),
    ensures
        events.len() > 1,
        events[1] == EventView::TargetListed(target),
{
    lemma_target_listed_once(setup, startup, state, events);
    let k = choose|k: int| 0 <= k < events.len() && events[k] == EventView::TargetListed(target);
    assert(events[k] is TargetListed);
}

/// Whether after `k` events of a pass the call was made, and answered so.
pub open spec fn answered_at(
    setup: Setup,
    state: StateView,
    events: Seq<EventView>,
    call: CallView,
    answer: EventView,
    k: int,
) -> bool {
    &&& 0 < k < events.len()
    &&& setup.last_step(true, state, events.take(k)).action == ActionView::Call(call)
    &&& events[k] == answer
}

/// Whether on startup the mirror was patched with the new token, and the answer was this.
pub open spec fn was_patched(
    setup: Setup,
    state: StateView,
    events: Seq<EventView>,
    name: Seq<char>,
    answer: EventView,
) -> bool {
    exists|k: int| #[trigger] answered_at(setup, state, events, CallView::PatchToken(name), answer, k)
}

/// Whether after `k` events of a pass the mirror was deleted, and directly after that
/// created again from the same URL.
pub open spec fn made_again_at(
    setup: Setup,
    state: StateView,
    events: Seq<EventView>,
    repo: RepoView,
    migration: MigrationView,
    k: int,
) -> bool {
    &&& answered_at(setup, state, events, CallView::Delete(repo.name), EventView::Succeeded, k)
    &&& answered_at(setup, state, events, CallView::Migrate(migration), EventView::Succeeded, k + 1)
    &&& migration.name == repo.name
    &&& migration.clone_addr == repo.original_url
    &&& migration.description is None
    &&& setup.mirror_private || repo.private <==> migration.private
}

/// Whether on startup the mirror was deleted and created again from the same URL.
pub open spec fn was_made_again(setup: Setup, state: StateView, events: Seq<EventView>, repo: RepoView) -> bool {
    exists|migration: MigrationView, k: int| #[trigger]
        made_again_at(setup, state, events, repo, migration, k)
}

/// Whether a mirror was given the new token as far as that can be done. In the automatic
/// mode, on a target that supports it, it was patched; and where the patch failed and the
/// mirror names its URL, it was made again from that. Where mirrors cannot be patched, or
/// the mode is to create them again, it was made again if it names its URL.
pub open spec fn got_the_token(setup: Setup, state: StateView, events: Seq<EventView>, repo: RepoView) -> bool {
    match setup.rotation_mode {
        RotationMode::Auto if setup.supports_patch => {
            ||| was_patched(setup, state, events, repo.name, EventView::Succeeded)
            ||| was_patched(setup, state, events, repo.name, EventView::Failed) && (
            repo.original_url.len() == 0 || was_made_again(setup, state, events, repo))
        },
        RotationMode::Warn => true,
        _ => repo.original_url.len() == 0 || was_made_again(setup, state, events, repo),
    }
}

/// Whether every managed mirror that the target listed was given the new token.
pub open spec fn all_got_the_token(setup: Setup, state: StateView, events: Seq<EventView>) -> bool {
    events.len() > 1 && (events[1] matches EventView::TargetListed(target) && forall|name: Seq<char>, i: int|
        state.managed.contains(name) && #[trigger] stands_at(target, name, i) && target[i].mirror
            ==> got_the_token(setup, state, events, target[i]))
}

proof fn lemma_answered_at_stays(
    setup: Setup,
    state: StateView,
    events: Seq<EventView>,
    event: EventView,
    call: CallView,
    answer: EventView,
    k: int,
)
    requires
        answered_at(setup, state, events, call, answer, k),
    ensures
        answered_at(setup, state, events.push(event), call, answer, k),
{
    assert(events.push(event).take(k) == events.take(k));
}

proof fn lemma_got_the_token_stays(
    setup: Setup,
    state: StateView,
    events: Seq<EventView>,
    event: EventView,
    repo: RepoView,
)
    requires
        got_the_token(setup, state, events, repo),
    ensures
        got_the_token(setup, state, events.push(event), repo),
{
    let more = events.push(event);
    let patch = CallView::PatchToken(repo.name);
    if was_patched(setup, state, events, repo.name, EventView::Succeeded) {
        let k = choose|k: int| #[trigger]
            answered_at(setup, state, events, patch, EventView::Succeeded, k);
        lemma_answered_at_stays(setup, state, events, event, patch, EventView::Succeeded, k);
        assert(was_patched(setup, state, more, repo.name, EventView::Succeeded));
    }
    if was_patched(setup, state, events, repo.name, EventView::Failed) {
        let k = choose|k: int| #[trigger] answered_at(setup, state, events, patch, EventView::Failed, k);
        lemma_answered_at_stays(setup, state, events, event, patch, EventView::Failed, k);
        assert(was_patched(setup, state, more, repo.name, EventView::Failed));
    }
    if was_made_again(setup, state, events, repo) {
        let (migration, k) = choose|migration: MigrationView, k: int| #[trigger]
            made_again_at(setup, state, events, repo, migration, k);
        let delete = CallView::Delete(repo.name);
        let migrate = CallView::Migrate(migration);
        lemma_answered_at_stays(setup, state, events, event, delete, EventView::Succeeded, k);
        lemma_answered_at_stays(setup, state, events, event, migrate, EventView::Succeeded, k + 1);
        assert(made_again_at(setup, state, more, repo, migration, k));
    }
}

/// How far the new token has got, by the stage of a pass.
spec fn token_so_far(
    setup: Setup,
    start: StateView,
    events: Seq<EventView>,
    stage: StageView,
    state: StateView,
) -> bool {
    &&& state.token_fingerprint == Some(setup.fingerprint) ==> all_got_the_token(setup, start, events)
    &&& stage matches StageView::Rotating { target, queue, next, call } ==> {
        &&& events.len() > 1 && events[1] == EventView::TargetListed(target)
        &&& queue == setup.rotation_queue(target, in_order(start.managed))
        &&& next < queue.len()
        &&& forall|i: int| 0 <= i < next ==> got_the_token(setup, start, events, #[trigger] queue[i])
        &&& setup.last_step(true, start, events).action == ActionView::Call(
            match call {
                Reauth::Patch => CallView::PatchToken(queue[next as int].name),
                Reauth::Delete => CallView::Delete(queue[next as int].name),
                Reauth::Migrate => CallView::Migrate(setup.recreated(queue[next as int])),
            },
        )
        &&& call != Reauth::Patch ==> queue[next as int].original_url.len() > 0
        &&& call != Reauth::Patch && setup.uses_patch() ==> was_patched(
            setup,
            start,
            events,
            queue[next as int].name,
            EventView::Failed,
        )
        &&& call == Reauth::Patch ==> setup.uses_patch()
        &&& call == Reauth::Migrate ==> answered_at(
            setup,
            start,
            events,
            CallView::Delete(queue[next as int].name),
            EventView::Succeeded,
            events.len() - 1,
        )
    }
}

/// Once every mirror of the queue has the token, every managed mirror has it.
proof fn lemma_queue_is_all(setup: Setup, start: StateView, events: Seq<EventView>, target: Seq<RepoView>)
    requires
        start.managed.finite(),
        events.len() > 1,
        events[1] == EventView::TargetListed(target),
        forall|i: int|
            0 <= i < setup.rotation_queue(target, in_order(start.managed)).len() ==> got_the_token(
                setup,
                start,
                events,
                #[trigger] setup.rotation_queue(target, in_order(start.managed))[i],
            ),
    ensures
        all_got_the_token(setup, start, events),
{
    let names = in_order(start.managed);
    let queue = setup.rotation_queue(target, names);
    let p = |name: Seq<char>| setup.needs_reauth(target, name);
    lemma_listing_exists(start.managed);
    assert forall|name: Seq<char>, i: int|
        start.managed.contains(name) && #[trigger] stands_at(target, name, i)
            && target[i].mirror implies got_the_token(setup, start, events, target[i]) by {
        law_last_of_a_name_is_found(target, name);
        if setup.needs_reauth(target, name) {
            assert(names.to_set().contains(name));
            lemma_names_kept(names, p, name);
            let k = choose|k: int| 0 <= k < names.filter(p).len() && names.filter(p)[k] == name;
            assert(queue[k] == target[i]);
        }
    }
}

/// The turn of the next mirror in the queue, or the end of the queue.
proof fn lemma_next_in_queue(
    setup: Setup,
    start: StateView,
    events: Seq<EventView>,
    target: Seq<RepoView>,
    queue: Seq<RepoView>,
    next: nat,
)
    requires
        start.managed.finite(),
        start.token_fingerprint != Some(setup.fingerprint),
        events.len() > 1,
        events[1] == EventView::TargetListed(target),
        queue == setup.rotation_queue(target, in_order(start.managed)),
        next <= queue.len(),
        forall|i: int| 0 <= i < next ==> got_the_token(setup, start, events, #[trigger] queue[i]),
        ({
            let out = setup.rotation_at(target, queue, next, start);
            setup.last_step(true, start, events) == out
        }),
    ensures
        ({
            let out = setup.rotation_at(target, queue, next, start);
            token_so_far(setup, start, events, out.stage, out.state)
        }),
{
    if next < queue.len() {
        super::lemma_queue(setup, target, start.managed, next as int);
    } else {
        lemma_queue_is_all(setup, start, events, target);
    }
}

/// What was got done of the queue stays done.
proof fn lemma_queue_stays(
    setup: Setup,
    start: StateView,
    events: Seq<EventView>,
    event: EventView,
    queue: Seq<RepoView>,
    next: nat,
)
    requires
        forall|i: int| 0 <= i < next ==> got_the_token(setup, start, events, #[trigger] queue[i]),
    ensures
        forall|i: int|
            0 <= i < next ==> got_the_token(setup, start, events.push(event), #[trigger] queue[i]),
{
    assert forall|i: int| 0 <= i < next implies got_the_token(
        setup,
        start,
        events.push(event),
        #[trigger] queue[i],
    ) by {
        lemma_got_the_token_stays(setup, start, events, event, queue[i]);
    }
}

/// A patch that failed stays so.
proof fn lemma_patched_stays(
    setup: Setup,
    start: StateView,
    events: Seq<EventView>,
    event: EventView,
    name: Seq<char>,
)
    requires
        was_patched(setup, start, events, name, EventView::Failed),
    ensures
        was_patched(setup, start, events.push(event), name, EventView::Failed),
{
    let patch = CallView::PatchToken(name);
    let k = choose|k: int| #[trigger] answered_at(setup, start, events, patch, EventView::Failed, k);
    lemma_answered_at_stays(setup, start, events, event, patch, EventView::Failed, k);
}

/// What a call of the queue was answered.
proof fn lemma_answered_at_now(
    setup: Setup,
    start: StateView,
    events: Seq<EventView>,
    event: EventView,
    call: CallView,
)
    requires
        events.len() > 0,
        setup.last_step(true, start, events).action == ActionView::Call(call),
    ensures
        answered_at(setup, start, events.push(event), call, event, events.len() as int),
{
    assert(events.push(event).take(events.len() as int) == events);
}

/// The answer to a patch.
proof fn lemma_patch_turn(
    setup: Setup,
    start: StateView,
    events: Seq<EventView>,
    target: Seq<RepoView>,
    queue: Seq<RepoView>,
    next: nat,
    event: EventView,
)
    requires
        start.managed.finite(),
        start.token_fingerprint != Some(setup.fingerprint),
        token_so_far(
            setup,
            start,
            events,
            StageView::Rotating { target, queue, next, call: Reauth::Patch },
            start,
        ),
        setup.last_step(true, start, events.push(event)) == setup.step(
            StageView::Rotating { target, queue, next, call: Reauth::Patch },
            start,
            event,
        ),
    ensures
        ({
            let out = setup.step(
                StageView::Rotating { target, queue, next, call: Reauth::Patch },
                start,
                event,
            );
            token_so_far(setup, start, events.push(event), out.stage, out.state)
        }),
{
    let more = events.push(event);
    let repo = queue[next as int];
    let patch = CallView::PatchToken(repo.name);
    lemma_queue_stays(setup, start, events, event, queue, next);
    lemma_answered_at_now(setup, start, events, event, patch);
    assert(was_patched(setup, start, more, repo.name, event));
    if event is Succeeded || event is Failed && repo.original_url.len() == 0 {
        assert(got_the_token(setup, start, more, repo));
        lemma_next_in_queue(setup, start, more, target, queue, next + 1);
    }
}

/// The answer to a deletion.
proof fn lemma_delete_turn(
    setup: Setup,
    start: StateView,
    events: Seq<EventView>,
    target: Seq<RepoView>,
    queue: Seq<RepoView>,
    next: nat,
    event: EventView,
)
    requires
        start.token_fingerprint != Some(setup.fingerprint),
        token_so_far(
            setup,
            start,
            events,
            StageView::Rotating { target, queue, next, call: Reauth::Delete },
            start,
        ),
        setup.last_step(true, start, events.push(event)) == setup.step(
            StageView::Rotating { target, queue, next, call: Reauth::Delete },
            start,
            event,
        ),
    ensures
        ({
            let out = setup.step(
                StageView::Rotating { target, queue, next, call: Reauth::Delete },
                start,
                event,
            );
            token_so_far(setup, start, events.push(event), out.stage, out.state)
        }),
{
    let repo = queue[next as int];
    lemma_queue_stays(setup, start, events, event, queue, next);
    lemma_answered_at_now(setup, start, events, event, CallView::Delete(repo.name));
    if setup.uses_patch() {
        lemma_patched_stays(setup, start, events, event, repo.name);
    }
}

/// A mirror that was deleted has the token once it was created again.
proof fn lemma_made_again_now(setup: Setup, start: StateView, events: Seq<EventView>, repo: RepoView)
    requires
        events.len() > 0,
        setup.last_step(true, start, events).action == ActionView::Call(
            CallView::Migrate(setup.recreated(repo)),
        ),
        answered_at(
            setup,
            start,
            events,
            CallView::Delete(repo.name),
            EventView::Succeeded,
            events.len() - 1,
        ),
        setup.uses_patch() ==> was_patched(setup, start, events, repo.name, EventView::Failed),
    ensures
        got_the_token(setup, start, events.push(EventView::Succeeded), repo),
{
    let event = EventView::Succeeded;
    let more = events.push(event);
    let at = events.len() as int;
    let migration = setup.recreated(repo);
    lemma_answered_at_now(setup, start, events, event, CallView::Migrate(migration));
    lemma_answered_at_stays(setup, start, events, event, CallView::Delete(repo.name), event, at - 1);
    if setup.uses_patch() {
        lemma_patched_stays(setup, start, events, event, repo.name);
    }
    assert(made_again_at(setup, start, more, repo, migration, at - 1));
    assert(was_made_again(setup, start, more, repo));
}

/// The answer to the migration that follows a deletion.
proof fn lemma_migrate_turn(
    setup: Setup,
    start: StateView,
    events: Seq<EventView>,
    target: Seq<RepoView>,
    queue: Seq<RepoView>,
    next: nat,
    event: EventView,
)
    requires
        start.managed.finite(),
        start.token_fingerprint != Some(setup.fingerprint),
        token_so_far(
            setup,
            start,
            events,
            StageView::Rotating { target, queue, next, call: Reauth::Migrate },
            start,
        ),
        setup.last_step(true, start, events.push(event)) == setup.step(
            StageView::Rotating { target, queue, next, call: Reauth::Migrate },
            start,
            event,
        ),
    ensures
        ({
            let out = setup.step(
                StageView::Rotating { target, queue, next, call: Reauth::Migrate },
                start,
                event,
            );
            token_so_far(setup, start, events.push(event), out.stage, out.state)
        }),
{
    if event is Succeeded {
        let more = events.push(event);
        let repo = queue[next as int];
        lemma_queue_stays(setup, start, events, event, queue, next);
        lemma_made_again_now(setup, start, events, repo);
        lemma_next_in_queue(setup, start, more, target, queue, next + 1);
    }
}

proof fn lemma_token_so_far(setup: Setup, state: StateView, events: Seq<EventView>)
    requires
        state.managed.finite(),
        setup.token_changed(state),
    ensures
        ({
            let now = setup.after(true, state, events);
            token_so_far(setup, state, events, now.0, now.1)
        }),
    decreases events.len(),
{
    if events.len() > 0 {
        let rest = events.drop_last();
        let last = events.last();
        lemma_token_so_far(setup, state, rest);
        lemma_pass_on_course(setup, true, state, rest);
        lemma_target_listed_once(setup, true, state, rest);
        let before = setup.after(true, state, rest);
        let out = setup.step(before.0, before.1, last);
        assert(rest.push(last) == events);
        lemma_step_stage(setup, before.0, before.1, last);
        if before.1.token_fingerprint == Some(setup.fingerprint) {
            assert(all_got_the_token(setup, state, rest));
            assert(rest[1] == events[1]);
            if let EventView::TargetListed(target) = rest[1] {
                assert forall|name: Seq<char>, i: int|
                    state.managed.contains(name) && #[trigger] stands_at(target, name, i)
                        && target[i].mirror implies got_the_token(setup, state, events, target[i]) by {
                    lemma_got_the_token_stays(setup, state, rest, last, target[i]);
                }
            }
            assert(all_got_the_token(setup, state, events));
        } else {
            match before.0 {
                StageView::Rotating { target, queue, next, call } => match call {
                    Reauth::Patch => lemma_patch_turn(setup, state, rest, target, queue, next, last),
                    Reauth::Delete => lemma_delete_turn(setup, state, rest, target, queue, next, last),
                    Reauth::Migrate => lemma_migrate_turn(setup, state, rest, target, queue, next, last),
                },
                StageView::ListingTarget { startup } => {
                    if let EventView::TargetListed(target) = last {
                        let queue = setup.rotation_queue(target, in_order(state.managed));
                        assert(events[1] == last);
                        lemma_next_in_queue(setup, state, events, target, queue, 0);
                    }
                },
                _ => {},
            }
        }
    }
}

/// A new token reaches every managed mirror that it can reach. Once a pass has recorded
/// the token, each of them was patched, or deleted and created again, as the mode and the
/// target call for, whatever else is true of the mirror.
pub proof fn law_new_token_reaches_every_mirror(
    engine: Engine,
    state: StateView,
    events: Seq<EventView>,
    known: Seq<char>,
)
    requires
        state.managed.finite(),
        state.token_fingerprint == Some(known),
        known != fingerprint_of(engine.cfg.source_token@),
        engine.setup().after(true, state, events).1.token_fingerprint == Some(
            fingerprint_of(engine.cfg.source_token@),
        ),
    ensures
        events.len() > 1,
        events[1] matches EventView::TargetListed(target) && forall|name: Seq<char>, i: int|
            state.managed.contains(name) && #[trigger] stands_at(target, name, i) && target[i].mirror ==> {
                &&& engine.cfg.rotation_mode == RotationMode::Auto && engine.caps.supports_pull_mirror_patch
                    ==> {
                    ||| was_patched(engine.setup(), state, events, name, EventView::Succeeded)
                    ||| was_patched(engine.setup(), state, events, name, EventView::Failed) && (
                    target[i].original_url.len() == 0 || was_made_again(
                        engine.setup(),
                        state,
                        events,
                        target[i],
                    ))
                }
                &&& engine.cfg.rotation_mode == RotationMode::Auto && !engine.caps.supports_pull_mirror_patch
                    && target[i].original_url.len() > 0 ==> was_made_again(
                    engine.setup(),
                    state,
                    events,
                    target[i],
                )
                &&& engine.cfg.rotation_mode == RotationMode::Recreate && target[i].original_url.len() > 0
                    ==> was_made_again(engine.setup(), state, events, target[i])
            },
{
    lemma_token_so_far(engine.setup(), state, events);
}

/// On startup a pass that is finished, or has gone on to the source, has recorded the
/// token; and no pass records it but on startup.
pub proof fn law_token_is_recorded_on_startup(
    setup: Setup,
    startup: bool,
    state: StateView,
    events: Seq<EventView>,
)
    requires
        state.managed.finite(),
        events.len() > 0,
    ensures
        startup && (setup.last_step(startup, state, events).action is Finish || setup.last_step(
            startup,
            state,
            events,
        ).action is ListSource) ==> setup.after(startup, state, events).1.token_fingerprint == Some(
            setup.fingerprint,
        ),
        !startup ==> setup.after(startup, state, events).1.token_fingerprint == state.token_fingerprint,
{
    lemma_pass_on_course(setup, startup, state, events);
    lemma_pass_on_course(setup, startup, state, events.drop_last());
    lemma_action_fits(setup, startup, state, events);
    let before = setup.after(startup, state, events.drop_last());
    lemma_step_stage(setup, before.0, before.1, events.last());
    lemma_step_finishes(setup, before.0, before.1, events.last());
}

/// Which action a stage of a pass has asked for.
spec fn action_fits(out: Outcome) -> bool {
    match out.stage {
        StageView::Start { .. } => false,
        StageView::ListingTarget { .. } => out.action is ListTarget,
        StageView::Rotating { .. } => out.action is Call,
        StageView::SavingToken { .. } => out.action is SaveState,
        StageView::ListingSource { .. } => out.action is ListSource,
        StageView::Mirroring { .. } => out.action is Call,
        StageView::Syncing { .. } => out.action is Call,
        StageView::Saving { .. } => out.action is SaveState,
        StageView::Ended => out.action is Finish || out.action is Fail,
    }
}

proof fn lemma_mirror_action_fits(
    setup: Setup,
    target: Seq<RepoView>,
    chosen: Seq<SourceRepoView>,
    next: nat,
    now: Standing,
)
    ensures
        action_fits(setup.mirror_at(target, chosen, next, now)),
    decreases chosen.len() - next,
{
    if next < chosen.len() {
        if let Turn::Over(after) = setup.turn_of(target, chosen, next, now) {
            lemma_mirror_action_fits(setup, target, chosen, next + 1, after);
        }
    }
}

proof fn lemma_action_fits(setup: Setup, startup: bool, state: StateView, events: Seq<EventView>)
    requires
        events.len() > 0,
    ensures
        action_fits(setup.last_step(startup, state, events)),
{
    let before = setup.after(startup, state, events.drop_last());
    match (before.0, events.last()) {
        (StageView::ListingSource { target }, EventView::SourceListed(repos)) => {
            let now = Standing::fresh(before.1);
            lemma_mirror_action_fits(setup, target, selected(setup.rules, repos), 0, now);
        },
        (StageView::Mirroring { target, selected: chosen, next, synced, summary, .. }, _) => {
            let now = Standing { state: before.1, synced, summary };
            let created = now.creating(chosen[next as int].name);
            lemma_mirror_action_fits(setup, target, chosen, next + 1, now);
            lemma_mirror_action_fits(setup, target, chosen, next + 1, created);
        },
        _ => {},
    }
}

/// What an answer means for a pass goes by what was asked. A listing must be given where
/// one was asked for. A sync or a patch may fail; a deletion, a migration or a save that
/// fails ends the pass. A pass that is over stays so.
pub proof fn law_answers_go_by_what_was_asked(
    setup: Setup,
    startup: bool,
    state: StateView,
    events: Seq<EventView>,
    answer: EventView,
)
    requires
        state.managed.finite(),
        events.len() > 0,
    ensures
        ({
            let fails = setup.last_step(startup, state, events.push(answer)).action is Fail;
            match setup.last_step(startup, state, events).action {
                ActionView::ListTarget => fails <==> !(answer is TargetListed),
                ActionView::ListSource => fails <==> !(answer is SourceListed),
                ActionView::Call(CallView::TriggerSync(_)) => fails <==> !(answer is Succeeded || answer is Failed),
                ActionView::Call(CallView::PatchToken(_)) => fails <==> !(answer is Succeeded || answer is Failed),
                ActionView::Call(CallView::Delete(_)) => fails <==> !(answer is Succeeded),
                ActionView::Call(CallView::Migrate(_)) => fails <==> !(answer is Succeeded),
                ActionView::SaveState => fails <==> !(answer is Succeeded),
                ActionView::Finish(_) => fails,
                ActionView::Fail => fails,
            }
        }),
        setup.last_step(startup, state, events.push(answer)).action is Fail ==> setup.after(
            startup,
            state,
            events.push(answer),
        ).1 == setup.after(startup, state, events).1,
{
    let now = setup.after(startup, state, events);
    let more = events.push(answer);
    assert(more.drop_last() == events);
    lemma_action_fits(setup, startup, state, events);
    lemma_action_fits(setup, startup, state, more);
    lemma_pass_on_course(setup, startup, state, events);
    super::law_only_failures_that_matter_fail(setup, now.0, now.1, answer);
}

/// A pass begins by asking for the target's repositories. It is finished only once its
/// state was saved: the save was the last thing asked for, it succeeded, and what was
/// saved is what is left.
pub proof fn law_pass_begins_and_ends(
    setup: Setup,
    startup: bool,
    state: StateView,
    events: Seq<EventView>,
)
    requires
        state.managed.finite(),
        events.len() > 0,
    ensures
        events.len() == 1 && events[0] is Start ==> setup.last_step(startup, state, events).action is ListTarget
            && setup.after(startup, state, events).1 == state,
        setup.last_step(startup, state, events).action is Finish ==> {
            &&& events.len() > 1
            &&& events.last() is Succeeded
            &&& setup.last_step(startup, state, events.drop_last()).action is SaveState
            &&& setup.after(startup, state, events.drop_last()).1 == setup.after(startup, state, events).1
        },
{
    let rest = events.drop_last();
    lemma_pass_on_course(setup, startup, state, rest);
    let before = setup.after(startup, state, rest);
    lemma_step_stage(setup, before.0, before.1, events.last());
    if rest.len() > 0 {
        lemma_action_fits(setup, startup, state, rest);
    }
    lemma_action_fits(setup, startup, state, events);
    lemma_step_finishes(setup, before.0, before.1, events.last());
}

proof fn lemma_step_finishes(setup: Setup, stage: StageView, state: StateView, event: EventView)
    ensures
        setup.step(stage, state, event).action is Finish ==> stage is Saving && event is Succeeded && setup.step(
            stage,
            state,
            event,
        ).state == state,
{
    match (stage, event) {
        (StageView::ListingSource { target }, EventView::SourceListed(repos)) => {
            let now = Standing::fresh(state);
            let chosen = selected(setup.rules, repos);
            lemma_mirror_action_fits(setup, target, chosen, 0, now);
            lemma_mirror_advances(setup, target, chosen, 0, now);
        },
        (StageView::Mirroring { target, selected: chosen, next, synced, summary, .. }, _) => {
            let now = Standing { state, synced, summary };
            let created = now.creating(chosen[next as int].name);
            lemma_mirror_action_fits(setup, target, chosen, next + 1, now);
            lemma_mirror_action_fits(setup, target, chosen, next + 1, created);
            lemma_mirror_advances(setup, target, chosen, next + 1, now);
            lemma_mirror_advances(setup, target, chosen, next + 1, created);
        },
        _ => {},
    }
}

proof fn lemma_source_listed_once(
    setup: Setup,
    startup: bool,
    state: StateView,
    events: Seq<EventView>,
)
    ensures
        ({
            let stage = setup.after(startup, state, events).0;
            &&& !(stage is Ended) && !is_late(stage) ==> forall|k: int|
                0 <= k < events.len() ==> !((#[trigger] events[k]) is SourceListed)
            &&& !(stage is Ended) ==> forall|j: int, k: int|
                0 <= j < events.len() && 0 <= k < events.len() && (#[trigger] events[j]) is SourceListed && (
                #[trigger] events[k]) is SourceListed ==> j == k
        }),
    decreases events.len(),
{
    if events.len() > 0 {
        let rest = events.drop_last();
        let last = events.last();
        lemma_source_listed_once(setup, startup, state, rest);
        let before = setup.after(startup, state, rest);
        lemma_step_stage(setup, before.0, before.1, last);
        let stage = setup.after(startup, state, events).0;
        if !(stage is Ended) {
            assert(forall|k: int| 0 <= k < rest.len() ==> events[k] == rest[k]);
            if !is_late(stage) {
                assert(!is_late(before.0));
                if last is SourceListed {
                    if let StageView::ListingSource { target } = before.0 {
                        if let EventView::SourceListed(repos) = last {
                            let now = Standing::fresh(before.1);
                            lemma_mirror_advances(setup, target, selected(setup.rules, repos), 0, now);
                        }
                    }
                }
            }
        }
    }
}

/// A pass that is not over goes by one listing of each forge.
proof fn lemma_one_listing_each(
    setup: Setup,
    startup: bool,
    state: StateView,
    events: Seq<EventView>,
)
    requires
        !(setup.after(startup, state, events).0 is Ended),
    ensures
        forall|a: Seq<RepoView>, b: Seq<RepoView>| #[trigger]
            target_was(events, a) && #[trigger] target_was(events, b) ==> a == b,
        forall|a: Seq<SourceRepoView>, b: Seq<SourceRepoView>| #[trigger]
            source_was(events, a) && #[trigger] source_was(events, b) ==> a == b,
{
    lemma_target_listed_once(setup, startup, state, events);
    lemma_source_listed_once(setup, startup, state, events);
    assert forall|a: Seq<RepoView>, b: Seq<RepoView>| #[trigger] target_was(events, a) && #[trigger] target_was(
        events,
        b,
    ) implies a == b by {
        let j = choose|j: int| 0 <= j < events.len() && events[j] == EventView::TargetListed(a);
        let k = choose|k: int| 0 <= k < events.len() && events[k] == EventView::TargetListed(b);
        assert(events[j] is TargetListed && events[k] is TargetListed);
    }
    assert forall|a: Seq<SourceRepoView>, b: Seq<SourceRepoView>| #[trigger]
        source_was(events, a) && #[trigger] source_was(events, b) implies a == b by {
        let j = choose|j: int| 0 <= j < events.len() && events[j] == EventView::SourceListed(a);
        let k = choose|k: int| 0 <= k < events.len() && events[k] == EventView::SourceListed(b);
        assert(events[j] is SourceListed && events[k] is SourceListed);
    }
}

/// A finished pass has listed each forge once.
pub proof fn law_finished_pass_listed_each_once(
    setup: Setup,
    startup: bool,
    state: StateView,
    events: Seq<EventView>,
)
    requires
        state.managed.finite(),
        events.len() > 0,
        setup.last_step(startup, state, events).action is Finish,
    ensures
        exists|target: Seq<RepoView>, repos: Seq<SourceRepoView>| #[trigger]
            target_was(events, target) && #[trigger] source_was(events, repos),
        forall|a: Seq<RepoView>, b: Seq<RepoView>| #[trigger]
            target_was(events, a) && #[trigger] target_was(events, b) ==> a == b,
        forall|a: Seq<SourceRepoView>, b: Seq<SourceRepoView>| #[trigger]
            source_was(events, a) && #[trigger] source_was(events, b) ==> a == b,
{
    let rest = events.drop_last();
    let last = events.last();
    let before = setup.after(startup, state, rest);
    law_finished_pass_settles(setup, startup, state, events);
    lemma_step_finishes(setup, before.0, before.1, last);
    lemma_one_listing_each(setup, startup, state, rest);
    lemma_listings_before(rest, last);
    assert(rest.push(last) == events);
}

/// An event that is no listing adds none.
proof fn lemma_listings_before(events: Seq<EventView>, event: EventView)
    requires
        !(event is TargetListed),
        !(event is SourceListed),
    ensures
        forall|t: Seq<RepoView>| #[trigger] target_was(events.push(event), t) <==> target_was(events, t),
        forall|r: Seq<SourceRepoView>| #[trigger]
            source_was(events.push(event), r) <==> source_was(events, r),
{
    let more = events.push(event);
    lemma_was(events, event);
    assert forall|t: Seq<RepoView>| #[trigger] target_was(more, t) implies target_was(events, t) by {
        let k = choose|k: int| 0 <= k < more.len() && more[k] == EventView::TargetListed(t);
        assert(events[k] == EventView::TargetListed(t));
    }
    assert forall|r: Seq<SourceRepoView>| #[trigger] source_was(more, r) implies source_was(events, r) by {
        let k = choose|k: int| 0 <= k < more.len() && more[k] == EventView::SourceListed(r);
        assert(events[k] == EventView::SourceListed(r));
    }
}

/// Whether a name is blacklisted by the end of a pass: it was before, or it was managed
/// and the target no longer has a mirror of that name.
pub open spec fn ends_up_blacklisted(state: StateView, target: Seq<RepoView>, name: Seq<char>) -> bool {
    state.blacklist.contains(name) || state.managed.contains(name) && !mirror_stands(target, name)
}

/// What a finished pass leaves of a name. It is blacklisted where it was, or where it was
/// managed and the target no longer has a mirror of that name. It is managed where it was
/// and the target has its mirror, or where the source has a selected repository of that
/// name, it is not blacklisted, and no repository that is no mirror has the name on the
/// target. The token's fingerprint is the current one after a startup, and else as it was.
pub proof fn law_what_a_finished_pass_leaves(
    setup: Setup,
    startup: bool,
    state: StateView,
    events: Seq<EventView>,
    target: Seq<RepoView>,
    repos: Seq<SourceRepoView>,
    name: Seq<char>,
)
    requires
        state.managed.finite(),
        events.len() > 0,
        setup.last_step(startup, state, events).action is Finish,
        target_was(events, target),
        source_was(events, repos),
    ensures
        ({
            let left = setup.after(startup, state, events).1;
            &&& left.blacklist.contains(name) <==> state.blacklist.contains(name) || state.managed.contains(name)
                && !mirror_stands(target, name)
            &&& left.managed.contains(name) <==> {
                ||| state.managed.contains(name) && mirror_stands(target, name)
                ||| (exists|i: int|
                    0 <= i < selected(setup.rules, repos).len() && (#[trigger] selected(
                        setup.rules,
                        repos,
                    )[i]).name == name) && !left.blacklist.contains(name) && !plain_stands(target, name)
            }
            &&& startup ==> left.token_fingerprint == Some(setup.fingerprint)
            &&& !startup ==> left.token_fingerprint == state.token_fingerprint
        }),
{
    law_finished_pass_settles(setup, startup, state, events);
    law_finished_pass_listed_each_once(setup, startup, state, events);
    law_last_of_a_name_decides(target, name);
    let left = setup.after(startup, state, events).1;
    assert(left == setup.settled(startup, state, target, repos));
    let chosen = selected(setup.rules, repos);
    if exists|i: int| 0 <= i < chosen.len() && (#[trigger] chosen[i]).name == name {
        let i = choose|i: int| 0 <= i < chosen.len() && (#[trigger] chosen[i]).name == name;
        assert(chosen[i].name == name);
        assert(has_name(chosen, name));
    }
    if has_name(chosen, name) {
        let i = choose|i: int| 0 <= i < chosen.len() && #[trigger] chosen[i].name == name;
        assert(chosen[i].name == name);
    }
}

/// A finished pass has created a mirror of every selected repository that is not
/// blacklisted and whose name was free on the target: under that name, from its clone
/// URL, with its description, and private where it is or where every mirror is to be.
pub proof fn law_missing_mirrors_were_created(
    engine: Engine,
    startup: bool,
    state: StateView,
    events: Seq<EventView>,
    target: Seq<RepoView>,
    repos: Seq<SourceRepoView>,
    i: int,
)
    requires
        state.managed.finite(),
        events.len() > 0,
        engine.setup().last_step(startup, state, events).action is Finish,
        target_was(events, target),
        source_was(events, repos),
        0 <= i < selected(engine.filters.rules(), repos).len(),
        !ends_up_blacklisted(state, target, selected(engine.filters.rules(), repos)[i].name),
        !on_target(target, selected(engine.filters.rules(), repos)[i].name),
    ensures
        exists|m: MigrationView| #[trigger]
            engine.setup().was_answered(startup, state, events, CallView::Migrate(m), EventView::Succeeded) && {
                let r = selected(engine.filters.rules(), repos)[i];
                &&& m.name == r.name
                &&& m.clone_addr == r.clone_url
                &&& m.description == r.description
                &&& engine.cfg.mirror_private ==> m.private
                &&& r.private ==> m.private
                &&& m.private ==> engine.cfg.mirror_private || r.private
            },
{
    let setup = engine.setup();
    let r = selected(engine.filters.rules(), repos)[i];
    super::law_finished_pass_has_done_its_work(setup, startup, state, events);
    law_finished_pass_listed_each_once(setup, startup, state, events);
    law_last_of_a_name_is_found(target, r.name);
    law_last_of_a_name_decides(target, r.name);
    assert(!without_broken(target, state).blacklist.contains(r.name));
    assert(selected(setup.rules, repos)[i] == r);
    assert(setup.was_created(startup, state, events, r));
    let m = setup.new_mirror(r);
    assert(setup.was_answered(startup, state, events, CallView::Migrate(m), EventView::Succeeded));
}

/// The migrations of a finished pass, where the token is the known one, are in their
/// order those of the selected repositories that are not blacklisted and whose names were
/// free on the target; each is the repository as it was listed.
pub proof fn law_migrations_in_plain_terms(
    engine: Engine,
    startup: bool,
    state: StateView,
    events: Seq<EventView>,
    target: Seq<RepoView>,
    repos: Seq<SourceRepoView>,
)
    requires
        state.managed.finite(),
        startup ==> (state.token_fingerprint matches Some(known) ==> known == fingerprint_of(
            engine.cfg.source_token@,
        )),
        events.len() > 0,
        engine.setup().last_step(startup, state, events).action is Finish,
        target_was(events, target),
        source_was(events, repos),
    ensures
        ({
            let made = engine.setup().migrations(startup, state, events);
            let missing = selected(engine.filters.rules(), repos).filter(
                |r: SourceRepoView| !ends_up_blacklisted(state, target, r.name) && !on_target(target, r.name),
            );
            &&& made.len() == missing.len()
            &&& forall|i: int|
                0 <= i < made.len() ==> {
                    &&& (#[trigger] made[i]).name == missing[i].name
                    &&& made[i].clone_addr == missing[i].clone_url
                    &&& made[i].description == missing[i].description
                    &&& engine.cfg.mirror_private || missing[i].private ==> made[i].private
                    &&& made[i].private ==> engine.cfg.mirror_private || missing[i].private
                }
        }),
{
    let setup = engine.setup();
    super::law_one_migration_for_each_missing_mirror(setup, startup, state, events);
    law_finished_pass_listed_each_once(setup, startup, state, events);
    let blacklist = without_broken(target, state).blacklist;
    let p = |r: SourceRepoView| !blacklist.contains(r.name) && lookup(target, r.name) is None;
    let q = |r: SourceRepoView| !ends_up_blacklisted(state, target, r.name) && !on_target(target, r.name);
    assert forall|r: SourceRepoView| #[trigger] p(r) == q(r) by {
        law_last_of_a_name_is_found(target, r.name);
        law_last_of_a_name_decides(target, r.name);
    }
    assert(p =~= q);
}

/// Where that is set, a finished pass has asked once for the sync of every name that it
/// manages and of which the target has a mirror.
pub proof fn law_syncs_in_plain_terms(
    engine: Engine,
    startup: bool,
    state: StateView,
    events: Seq<EventView>,
    target: Seq<RepoView>,
    name: Seq<char>,
)
    requires
        state.managed.finite(),
        events.len() > 0,
        engine.setup().last_step(startup, state, events).action is Finish,
        engine.cfg.trigger_sync,
        target_was(events, target),
        engine.setup().after(startup, state, events).1.managed.contains(name),
        mirror_stands(target, name),
    ensures
        engine.setup().was_made_once(startup, state, events, CallView::TriggerSync(name)),
{
    let setup = engine.setup();
    super::law_every_managed_mirror_is_synced_once(setup, startup, state, events);
    law_finished_pass_listed_each_once(setup, startup, state, events);
    law_last_of_a_name_decides(target, name);
    assert(is_mirror(target, name));
}

/// The names that a pass adopts: those of selected repositories that are not blacklisted,
/// were not managed, and of which the target has a mirror.
pub open spec fn newly_adopted(
    managed: Set<Seq<char>>,
    blacklist: Set<Seq<char>>,
    target: Seq<RepoView>,
    chosen: Seq<SourceRepoView>,
) -> Set<Seq<char>> {
    Set::new(
        |name: Seq<char>|
            has_name(chosen, name) && !blacklist.contains(name) && !managed.contains(name) && mirror_stands(
                target,
                name,
            ),
    )
}

/// Whether the counts are those of what became of the chosen repositories.
pub open spec fn counted(
    managed: Set<Seq<char>>,
    blacklist: Set<Seq<char>>,
    target: Seq<RepoView>,
    chosen: Seq<SourceRepoView>,
    summary: Summary,
) -> bool {
    &&& summary.created == chosen.filter(
        |r: SourceRepoView| !blacklist.contains(r.name) && !on_target(target, r.name),
    ).len()
    &&& summary.skipped == chosen.filter(
        |r: SourceRepoView| !blacklist.contains(r.name) && plain_stands(target, r.name),
    ).len()
    &&& newly_adopted(managed, blacklist, target, chosen).finite()
    &&& summary.adopted == newly_adopted(managed, blacklist, target, chosen).len()
}

/// One more repository, and what it adds to the counts.
proof fn lemma_count_one(
    managed: Set<Seq<char>>,
    blacklist: Set<Seq<char>>,
    target: Seq<RepoView>,
    chosen: Seq<SourceRepoView>,
    next: int,
)
    requires
        0 <= next < chosen.len(),
        newly_adopted(managed, blacklist, target, chosen.take(next)).finite(),
    ensures
        ({
            let fewer = chosen.take(next);
            let more = chosen.take(next + 1);
            let name = chosen[next].name;
            let missing = |r: SourceRepoView| !blacklist.contains(r.name) && !on_target(target, r.name);
            let plain = |r: SourceRepoView| !blacklist.contains(r.name) && plain_stands(target, r.name);
            let old = newly_adopted(managed, blacklist, target, fewer);
            let new = newly_adopted(managed, blacklist, target, more);
            &&& more.filter(missing).len() == fewer.filter(missing).len() + if !blacklist.contains(name)
                && !on_target(target, name) {
                1int
            } else {
                0int
            }
            &&& more.filter(plain).len() == fewer.filter(plain).len() + if !blacklist.contains(name)
                && plain_stands(target, name) {
                1int
            } else {
                0int
            }
            &&& new.finite()
            &&& new.len() == old.len() + if !blacklist.contains(name) && !managed.contains(name) && mirror_stands(
                target,
                name,
            ) && !has_name(fewer, name) {
                1int
            } else {
                0int
            }
        }),
{
    reveal(Seq::filter);
    let fewer = chosen.take(next);
    let more = chosen.take(next + 1);
    let name = chosen[next].name;
    assert(more.drop_last() == fewer);
    assert(more.last() == chosen[next]);
    let old = newly_adopted(managed, blacklist, target, fewer);
    let new = newly_adopted(managed, blacklist, target, more);
    assert forall|n: Seq<char>| #[trigger] has_name(more, n) <==> has_name(fewer, n) || n == name by {
        if has_name(fewer, n) {
            let i = choose|i: int| 0 <= i < fewer.len() && #[trigger] fewer[i].name == n;
            assert(more[i].name == n);
        }
        if has_name(more, n) && n != name {
            let i = choose|i: int| 0 <= i < more.len() && #[trigger] more[i].name == n;
            assert(i < next);
            assert(fewer[i].name == n);
        }
        assert(more[next].name == name);
    }
    if !blacklist.contains(name) && !managed.contains(name) && mirror_stands(target, name) && !has_name(
        fewer,
        name,
    ) {
        assert(new =~= old.insert(name));
    } else {
        assert(new =~= old);
    }
}

/// Whether a count fits the machine's words.
spec fn fits(chosen: Seq<SourceRepoView>, base: StateView, target: Seq<RepoView>, next: int, summary: Summary) -> bool {
    &&& chosen.len() <= usize::MAX
    &&& 0 <= next <= chosen.len()
    &&& counted(base.managed, base.blacklist, target, chosen.take(next), summary)
    &&& summary.created + summary.skipped + summary.adopted <= next
}

proof fn lemma_turn_counts(
    setup: Setup,
    target: Seq<RepoView>,
    chosen: Seq<SourceRepoView>,
    next: nat,
    base: StateView,
    now: Standing,
    summary: Summary,
)
    requires
        next < chosen.len(),
        fits(chosen, base, target, next as int, now.summary),
        now.state == super::with_taken_on(base, target, chosen.take(next as int)),
        ({
            let name = chosen[next as int].name;
            summary == if base.blacklist.contains(name) {
                now.summary
            } else if !on_target(target, name) {
                now.creating(name).summary
            } else if plain_stands(target, name) {
                now.skipping().summary
            } else {
                now.adopting(name).summary
            }
        }),
    ensures
        fits(chosen, base, target, next as int + 1, summary),
{
    let name = chosen[next as int].name;
    lemma_count_one(base.managed, base.blacklist, target, chosen, next as int);
    law_last_of_a_name_decides(target, name);
}

proof fn lemma_mirror_counts(
    setup: Setup,
    target: Seq<RepoView>,
    chosen: Seq<SourceRepoView>,
    next: nat,
    base: StateView,
    now: Standing,
)
    requires
        base.managed.finite(),
        fits(chosen, base, target, next as int, now.summary),
        now.state == super::with_taken_on(base, target, chosen.take(next as int)),
    ensures
        ({
            let out = setup.mirror_at(target, chosen, next, now);
            match out.stage {
                StageView::Mirroring { target: t, selected: c, next: n, syncing, summary, .. } => {
                    &&& t == target && c == chosen
                    &&& fits(
                        chosen,
                        base,
                        target,
                        n as int + if syncing {
                            1int
                        } else {
                            0int
                        },
                        summary,
                    )
                },
                StageView::Syncing { summary, .. } => fits(chosen, base, target, chosen.len() as int, summary),
                StageView::Saving { summary } => fits(chosen, base, target, chosen.len() as int, summary),
                _ => false,
            }
        }),
    decreases chosen.len() - next,
{
    if next < chosen.len() {
        let name = chosen[next as int].name;
        law_last_of_a_name_is_found(target, name);
        law_last_of_a_name_decides(target, name);
        super::lemma_taken_on(base, target, chosen, next as int);
        match setup.turn_of(target, chosen, next, now) {
            Turn::Over(after) => {
                lemma_turn_counts(setup, target, chosen, next, base, now, after.summary);
                assert(after.state == super::with_taken_on(base, target, chosen.take(next as int + 1)));
                lemma_mirror_counts(setup, target, chosen, next + 1, base, after);
            },
            Turn::Waits(out) => {
                if mirror_stands(target, name) {
                    lemma_turn_counts(setup, target, chosen, next, base, now, now.adopting(name).summary);
                }
            },
        }
    }
}

/// What the counts of a pass are, by its stage.
spec fn counted_so_far(
    setup: Setup,
    startup: bool,
    start: StateView,
    events: Seq<EventView>,
    stage: StageView,
) -> bool {
    match stage {
        StageView::Mirroring { target, selected: chosen, next, syncing, summary, .. } => chosen.len() <= usize::MAX
            ==> fits(
            chosen,
            without_broken(target, setup.recorded(startup, start)),
            target,
            next as int + if syncing {
                1int
            } else {
                0int
            },
            summary,
        ),
        StageView::Syncing { summary, .. } => all_counted(setup, startup, start, events, summary),
        StageView::Saving { summary } => all_counted(setup, startup, start, events, summary),
        _ => true,
    }
}

spec fn all_counted(
    setup: Setup,
    startup: bool,
    start: StateView,
    events: Seq<EventView>,
    summary: Summary,
) -> bool {
    forall|target: Seq<RepoView>, repos: Seq<SourceRepoView>| #[trigger]
        target_was(events, target) && #[trigger] source_was(events, repos) && selected(
            setup.rules,
            repos,
        ).len() <= usize::MAX ==> fits(
            selected(setup.rules, repos),
            without_broken(target, setup.recorded(startup, start)),
            target,
            selected(setup.rules, repos).len() as int,
            summary,
        )
}

proof fn lemma_step_counts(
    setup: Setup,
    startup: bool,
    start: StateView,
    events: Seq<EventView>,
    stage: StageView,
    state: StateView,
    event: EventView,
)
    requires
        start.managed.finite(),
        setup.after(startup, start, events) == (stage, state),
        counted_so_far(setup, startup, start, events, stage),
    ensures
        counted_so_far(setup, startup, start, events.push(event), setup.step(stage, state, event).stage),
{
    let more = events.push(event);
    let out = setup.step(stage, state, event);
    assert(more.drop_last() == events);
    lemma_pass_on_course(setup, startup, start, events);
    lemma_step_stage(setup, stage, state, event);
    lemma_was(events, event);
    if !(out.stage is Ended) {
        lemma_one_listing_each(setup, startup, start, events);
        lemma_one_listing_each(setup, startup, start, more);
        match stage {
            StageView::ListingSource { target } => {
                if let EventView::SourceListed(repos) = event {
                    let chosen = selected(setup.rules, repos);
                    let now = Standing::fresh(state);
                    assert(more[more.len() - 1] == event);
                    assert(source_was(more, repos));
                    assert(target_was(more, target));
                    if chosen.len() <= usize::MAX {
                        lemma_nothing_counted(state, target, chosen);
                        assert(now.state == super::with_taken_on(state, target, chosen.take(0))) by {
                            let none = super::taken_on(target, state.blacklist, chosen.take(0));
                            assert(none =~= Set::empty());
                            assert(state.managed.union(none) =~= state.managed);
                        }
                        lemma_mirror_counts(setup, target, chosen, 0, state, now);
                    }
                    lemma_mirror_stage(setup, target, chosen, 0, now);
                }
            },
            StageView::Mirroring { target, selected: chosen, next, syncing, synced, summary } => {
                let base = without_broken(target, setup.recorded(startup, start));
                let repos = choose|repos: Seq<SourceRepoView>| #[trigger]
                    source_was(events, repos) && chosen == selected(setup.rules, repos);
                assert(source_was(more, repos) && target_was(more, target));
                let name = chosen[next as int].name;
                let now = Standing { state, synced, summary };
                if chosen.len() <= usize::MAX {
                    if syncing {
                        lemma_mirror_counts(setup, target, chosen, next + 1, base, now);
                    } else {
                        law_last_of_a_name_is_found(target, name);
                        super::lemma_taken_on(base, target, chosen, next as int);
                        lemma_turn_counts(setup, target, chosen, next, base, now, now.creating(name).summary);
                        lemma_mirror_counts(setup, target, chosen, next + 1, base, now.creating(name));
                    }
                }
                lemma_mirror_stage(setup, target, chosen, next + 1, now);
                lemma_mirror_stage(setup, target, chosen, next + 1, now.creating(name));
            },
            StageView::Syncing { .. } => {
                lemma_listings_before(events, event);
            },
            _ => {},
        }
    }
}

/// What is chosen does not change while mirrors are created.
proof fn lemma_mirror_stage(
    setup: Setup,
    target: Seq<RepoView>,
    chosen: Seq<SourceRepoView>,
    next: nat,
    now: Standing,
)
    ensures
        setup.mirror_at(target, chosen, next, now).stage matches StageView::Mirroring { target: t, selected: c, .. }
            ==> t == target && c == chosen,
    decreases chosen.len() - next,
{
    if next < chosen.len() {
        if let Turn::Over(after) = setup.turn_of(target, chosen, next, now) {
            lemma_mirror_stage(setup, target, chosen, next + 1, after);
        }
    }
}

proof fn lemma_nothing_counted(base: StateView, target: Seq<RepoView>, chosen: Seq<SourceRepoView>)
    requires
        chosen.len() <= usize::MAX,
    ensures
        fits(chosen, base, target, 0, Summary { created: 0, adopted: 0, skipped: 0 }),
{
    reveal(Seq::filter);
    assert(chosen.take(0) =~= Seq::empty());
    assert(newly_adopted(base.managed, base.blacklist, target, chosen.take(0)) =~= Set::empty());
}

proof fn lemma_pass_counts(setup: Setup, startup: bool, state: StateView, events: Seq<EventView>)
    requires
        state.managed.finite(),
    ensures
        counted_so_far(setup, startup, state, events, setup.after(startup, state, events).0),
    decreases events.len(),
{
    if events.len() > 0 {
        let rest = events.drop_last();
        lemma_pass_counts(setup, startup, state, rest);
        let before = setup.after(startup, state, rest);
        lemma_step_counts(setup, startup, state, rest, before.0, before.1, events.last());
        assert(rest.push(events.last()) == events);
    }
}

/// The summary of a finished pass counts, of the selected repositories that are not
/// blacklisted, those created, whose names were free on the target; those left alone,
/// whose names another kind of repository has there; and the names adopted, of which the
/// target has a mirror that was not managed. A count must fit the machine's words.
pub proof fn law_summary_counts(
    setup: Setup,
    startup: bool,
    state: StateView,
    events: Seq<EventView>,
    target: Seq<RepoView>,
    repos: Seq<SourceRepoView>,
    summary: Summary,
)
    requires
        state.managed.finite(),
        events.len() > 0,
        setup.last_step(startup, state, events).action == ActionView::Finish(summary),
        target_was(events, target),
        source_was(events, repos),
        selected(setup.rules, repos).len() <= usize::MAX,
    ensures
        summary.created == selected(setup.rules, repos).filter(
            |r: SourceRepoView| !ends_up_blacklisted(state, target, r.name) && !on_target(target, r.name),
        ).len(),
        summary.skipped == selected(setup.rules, repos).filter(
            |r: SourceRepoView| !ends_up_blacklisted(state, target, r.name) && plain_stands(target, r.name),
        ).len(),
        summary.adopted == Set::new(
            |name: Seq<char>|
                has_name(selected(setup.rules, repos), name) && !ends_up_blacklisted(state, target, name)
                    && !state.managed.contains(name) && mirror_stands(target, name),
        ).len(),
{
    let rest = events.drop_last();
    let last = events.last();
    let before = setup.after(startup, state, rest);
    lemma_pass_counts(setup, startup, state, rest);
    lemma_step_finishes(setup, before.0, before.1, last);
    lemma_listings_before(rest, last);
    assert(rest.push(last) == events);
    assert(target_was(rest, target) && source_was(rest, repos));
    let chosen = selected(setup.rules, repos);
    let base = without_broken(target, setup.recorded(startup, state));
    assert(chosen.take(chosen.len() as int) == chosen);
    assert forall|name: Seq<char>| #[trigger] base.blacklist.contains(name) == ends_up_blacklisted(
        state,
        target,
        name,
    ) by {
        law_last_of_a_name_decides(target, name);
    }
    let p = |r: SourceRepoView| !base.blacklist.contains(r.name) && !on_target(target, r.name);
    let p1 = |r: SourceRepoView| !ends_up_blacklisted(state, target, r.name) && !on_target(target, r.name);
    assert(p =~= p1);
    let q = |r: SourceRepoView| !base.blacklist.contains(r.name) && plain_stands(target, r.name);
    let q1 = |r: SourceRepoView| !ends_up_blacklisted(state, target, r.name) && plain_stands(target, r.name);
    assert(q =~= q1);
    let adopted = newly_adopted(base.managed, base.blacklist, target, chosen);
    assert forall|name: Seq<char>| mirror_stands(target, name) implies #[trigger] base.managed.contains(name)
        == state.managed.contains(name) by {
        law_last_of_a_name_decides(target, name);
    }
    assert(adopted =~= Set::new(
        |name: Seq<char>|
            has_name(chosen, name) && !ends_up_blacklisted(state, target, name) && !state.managed.contains(name)
                && mirror_stands(target, name),
    ));
}

/// A step that was made stands where the outcome says, with the state and the action that
/// it says.
pub proof fn law_step_is_its_outcome(r: (Progress, Action), state: StateView, outcome: Outcome)
    requires
        reaches(r, state, outcome),
    ensures
        r.0@ == outcome.stage,
        state == outcome.state,
        r.1@ == outcome.action,
{
}

proof fn lemma_filter_ascending(names: Seq<Seq<char>>, p: spec_fn(Seq<char>) -> bool)
    requires
        ascending(names),
    ensures
        ascending(names.filter(p)),
    decreases names.len(),
{
    reveal(Seq::filter);
    if names.len() > 0 {
        let rest = names.drop_last();
        let last = names.last();
        assert forall|i: int, j: int| 0 <= i < j < rest.len() implies before(
            #[trigger] rest[i],
            #[trigger] rest[j],
        ) by {
            assert(before(names[i], names[j]));
        }
        lemma_filter_ascending(rest, p);
        let kept = rest.filter(p);
        if p(last) {
            let all = names.filter(p);
            assert forall|i: int, j: int| 0 <= i < j < all.len() implies before(
                #[trigger] all[i],
                #[trigger] all[j],
            ) by {
                if j < kept.len() {
                    assert(before(kept[i], kept[j]));
                } else {
                    super::lemma_filter_member(rest, p, i);
                    let k = choose|k: int| 0 <= k < rest.len() && rest[k] == kept[i];
                    assert(before(names[k], names[names.len() - 1]));
                }
            }
        }
    }
}

/// The mirrors to be given a new token are all managed ones that can be: none in the mode
/// that only warns; in the automatic mode all of them on a target that supports it; else
/// those that name the URL to create them again from. They come in the order of the UTF-8
/// bytes of their names.
pub proof fn law_rotation_queue(setup: Setup, target: Seq<RepoView>, managed: Set<Seq<char>>)
    requires
        managed.finite(),
    ensures
        forall|j: int, k: int|
            0 <= j < k < setup.rotation_queue(target, in_order(managed)).len() ==> bytes_before(
                encode_utf8(#[trigger] setup.rotation_queue(target, in_order(managed))[j].name),
                encode_utf8(#[trigger] setup.rotation_queue(target, in_order(managed))[k].name),
            ),
        forall|repo: RepoView| #[trigger]
            setup.rotation_queue(target, in_order(managed)).contains(repo) <==> {
                &&& managed.contains(repo.name)
                &&& exists|i: int| #[trigger] stands_at(target, repo.name, i) && target[i] == repo
                &&& repo.mirror
                &&& match setup.rotation_mode {
                    RotationMode::Warn => false,
                    RotationMode::Recreate => repo.original_url.len() > 0,
                    RotationMode::Auto => setup.supports_patch || repo.original_url.len() > 0,
                }
            },
{
    let names = in_order(managed);
    let p = |name: Seq<char>| setup.needs_reauth(target, name);
    let kept = names.filter(p);
    let queue = setup.rotation_queue(target, names);
    lemma_listing_exists(managed);
    lemma_filter_ascending(names, p);
    assert forall|k: int| 0 <= k < queue.len() implies (#[trigger] queue[k]).name == kept[k] && lookup(
        target,
        kept[k],
    ) == Some(queue[k]) by {
        super::lemma_filter_member(names, p, k);
        lemma_lookup_name(target, kept[k]);
    }
    assert forall|j: int, k: int| 0 <= j < k < queue.len() implies bytes_before(
        encode_utf8(#[trigger] queue[j].name),
        encode_utf8(#[trigger] queue[k].name),
    ) by {
        assert(before(kept[j], kept[k]));
    }
    assert forall|repo: RepoView| #[trigger] queue.contains(repo) <==> {
        &&& managed.contains(repo.name)
        &&& exists|i: int| #[trigger] stands_at(target, repo.name, i) && target[i] == repo
        &&& repo.mirror
        &&& match setup.rotation_mode {
            RotationMode::Warn => false,
            RotationMode::Recreate => repo.original_url.len() > 0,
            RotationMode::Auto => setup.supports_patch || repo.original_url.len() > 0,
        }
    } by {
        law_last_of_a_name_is_found(target, repo.name);
        assert(names.to_set().contains(repo.name) <==> names.contains(repo.name));
        lemma_names_kept(names, p, repo.name);
        if queue.contains(repo) {
            let k = choose|k: int| 0 <= k < queue.len() && queue[k] == repo;
            assert(kept[k] == repo.name);
            assert(kept.contains(repo.name));
            let i = choose|i: int| #[trigger] stands_at(target, repo.name, i);
            assert(target[i] == repo);
        } else if kept.contains(repo.name) {
            let k = choose|k: int| 0 <= k < kept.len() && kept[k] == repo.name;
            assert(queue[k].name == repo.name);
            assert(queue.contains(queue[k]));
        }
    }
}

/// The mirrors whose sync is left to be asked for are all managed ones that were not
/// synced yet, where syncs are set. They come in the order of the UTF-8 bytes of their
/// names.
pub proof fn law_syncs_left(
    setup: Setup,
    target: Seq<RepoView>,
    managed: Set<Seq<char>>,
    synced: Set<Seq<char>>,
)
    requires
        managed.finite(),
    ensures
        forall|j: int, k: int|
            0 <= j < k < setup.unsynced(target, in_order(managed), synced).len() ==> bytes_before(
                encode_utf8(#[trigger] setup.unsynced(target, in_order(managed), synced)[j]),
                encode_utf8(#[trigger] setup.unsynced(target, in_order(managed), synced)[k]),
            ),
        forall|name: Seq<char>| #[trigger]
            setup.unsynced(target, in_order(managed), synced).contains(name) <==> setup.trigger_sync
                && managed.contains(name) && mirror_stands(target, name) && !synced.contains(name),
{
    let names = in_order(managed);
    let p = |name: Seq<char>| is_mirror(target, name) && !synced.contains(name);
    let left = setup.unsynced(target, names, synced);
    lemma_listing_exists(managed);
    lemma_filter_ascending(names, p);
    assert forall|j: int, k: int| 0 <= j < k < left.len() implies bytes_before(
        encode_utf8(#[trigger] left[j]),
        encode_utf8(#[trigger] left[k]),
    ) by {
        assert(before(left[j], left[k]));
    }
    assert forall|name: Seq<char>| #[trigger] left.contains(name) <==> setup.trigger_sync && managed.contains(
        name,
    ) && mirror_stands(target, name) && !synced.contains(name) by {
        law_last_of_a_name_decides(target, name);
        assert(names.to_set().contains(name) <==> names.contains(name));
        lemma_names_kept(names, p, name);
    }
}

/// What is left to the user comes in the order of the UTF-8 bytes of the names.
pub proof fn law_left_to_the_user_in_order(setup: Setup, target: Seq<RepoView>, managed: Set<Seq<char>>)
    requires
        managed.finite(),
    ensures
        forall|j: int, k: int|
            0 <= j < k < setup.left_to_user(target, in_order(managed)).len() ==> bytes_before(
                encode_utf8(#[trigger] setup.left_to_user(target, in_order(managed))[j]),
                encode_utf8(#[trigger] setup.left_to_user(target, in_order(managed))[k]),
            ),
{
    let names = in_order(managed);
    let p = |name: Seq<char>| is_mirror(target, name) && !setup.needs_reauth(target, name);
    let left = setup.left_to_user(target, names);
    lemma_listing_exists(managed);
    lemma_filter_ascending(names, p);
    assert forall|j: int, k: int| 0 <= j < k < left.len() implies bytes_before(
        encode_utf8(#[trigger] left[j]),
        encode_utf8(#[trigger] left[k]),
    ) by {
        assert(before(left[j], left[k]));
    }
}

/// The token is another one exactly where one is remembered and it is not this one.
pub proof fn law_token_changed(setup: Setup, state: StateView)
    ensures
        setup.token_changed(state) <==> state.token_fingerprint is Some && state.token_fingerprint != Some(
            setup.fingerprint,
        ),
{
}

/// A fingerprint that was recorded is saved before anything else is done.
pub proof fn law_token_is_saved_at_once(
    setup: Setup,
    startup: bool,
    state: StateView,
    events: Seq<EventView>,
)
    requires
        state.managed.finite(),
        events.len() > 0,
        setup.after(startup, state, events).1.token_fingerprint != setup.after(
            startup,
            state,
            events.drop_last(),
        ).1.token_fingerprint,
    ensures
        setup.last_step(startup, state, events).action is SaveState,
{
    let rest = events.drop_last();
    let before = setup.after(startup, state, rest);
    lemma_pass_on_course(setup, startup, state, rest);
    lemma_pass_on_course(setup, startup, state, events);
    lemma_action_fits(setup, startup, state, events);
    lemma_step_stage(setup, before.0, before.1, events.last());
    super::law_only_failures_that_matter_fail(setup, before.0, before.1, events.last());
    lemma_step_finishes(setup, before.0, before.1, events.last());
}

} // verus!
