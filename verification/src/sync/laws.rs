//! What holds of every reconciliation pass, whatever the forges answer.
use super::{
    is_mirror, lemma_lookup_name, list_source, lookup, sync_at, without_broken, ActionView, CallView,
    EventView, MigrationView, Outcome, Reauth, Setup, StageView, Standing, Summary, Turn,
};
use crate::filter::{law_selection, selected};
use crate::names::{
    ascending, in_order, lemma_before_irreflexive, lemma_listing_exists, lemma_push_to_set,
};
use crate::source::order::sorted;
use crate::source::SourceRepoView;
use crate::state::StateView;
use crate::target::RepoView;
use vstd::prelude::*;

pub mod outcomes;

verus! {

/// A state that can be kept: its sets are finite.
pub open spec fn finite(state: StateView) -> bool {
    state.managed.finite() && state.blacklist.finite()
}

/// Whether a name is blacklisted, and not managed at the same time; a name is both only
/// where the state file was edited so by hand.
pub open spec fn is_banned(state: StateView, name: Seq<char>) -> bool {
    state.blacklist.contains(name) && !state.managed.contains(name)
}

/// Whether a name is blacklisted and managed at the same time.
pub open spec fn is_both(state: StateView, name: Seq<char>) -> bool {
    state.blacklist.contains(name) && state.managed.contains(name)
}

impl Setup {
    /// Where a pass stands after these events, and with what state.
    pub open spec fn after(
        self,
        startup: bool,
        state: StateView,
        events: Seq<EventView>,
    ) -> (StageView, StateView)
        decreases events.len(),
    {
        if events.len() == 0 {
            (StageView::Start { startup }, state)
        } else {
            let before = self.after(startup, state, events.drop_last());
            let outcome = self.step(before.0, before.1, events.last());
            (outcome.stage, outcome.state)
        }
    }

    /// What a pass does on the last of these events.
    pub open spec fn last_step(
        self,
        startup: bool,
        state: StateView,
        events: Seq<EventView>,
    ) -> Outcome
        recommends
            events.len() > 0,
    {
        let before = self.after(startup, state, events.drop_last());
        self.step(before.0, before.1, events.last())
    }
}

/// What holds between the stage of a pass and its state: what is re-authenticated, or
/// synced after the others, is managed; what is created, adopted or synced before is not
/// blacklisted.
spec fn sound(stage: StageView, state: StateView) -> bool {
    &&& finite(state)
    &&& match stage {
        StageView::Rotating { queue, next, .. } => {
            &&& next < queue.len()
            &&& forall|i: int| 0 <= i < queue.len() ==> state.managed.contains(#[trigger] queue[i].name)
        },
        StageView::Mirroring { selected, next, .. } => {
            &&& next < selected.len()
            &&& !state.blacklist.contains(selected[next as int].name)
        },
        StageView::Syncing { names, next, .. } => {
            &&& next < names.len()
            &&& forall|i: int| 0 <= i < names.len() ==> state.managed.contains(#[trigger] names[i])
        },
        _ => true,
    }
}

/// Whether an outcome is sound, keeps every ban, and calls for nothing banned.
spec fn sound_outcome(state: StateView, out: Outcome) -> bool {
    &&& sound(out.stage, out.state)
    &&& state.blacklist.subset_of(out.state.blacklist)
    &&& forall|name: Seq<char>| is_banned(state, name) ==> #[trigger] is_banned(out.state, name)
    &&& forall|name: Seq<char>| #[trigger] is_both(out.state, name) ==> is_both(state, name)
    &&& out.action matches ActionView::Call(call) ==> !is_banned(out.state, call.name())
}

proof fn lemma_filter_member(names: Seq<Seq<char>>, p: spec_fn(Seq<char>) -> bool, i: int)
    requires
        0 <= i < names.filter(p).len(),
    ensures
        names.contains(names.filter(p)[i]),
        p(names.filter(p)[i]),
    decreases names.len(),
{
    reveal(Seq::filter);
    if names.len() > 0 {
        let rest = names.drop_last();
        if i < rest.filter(p).len() {
            lemma_filter_member(rest, p, i);
            let k = choose|k: int| 0 <= k < rest.len() && rest[k] == rest.filter(p)[i];
            assert(names[k] == rest.filter(p)[i]);
        } else {
            assert(names[names.len() - 1] == names.last());
        }
    }
}

/// The mirrors to be re-authenticated are managed ones that are on the target.
proof fn lemma_queue(setup: Setup, target: Seq<RepoView>, managed: Set<Seq<char>>, i: int)
    requires
        managed.finite(),
        0 <= i < setup.rotation_queue(target, in_order(managed)).len(),
    ensures
        ({
            let repo = setup.rotation_queue(target, in_order(managed))[i];
            &&& managed.contains(repo.name)
            &&& lookup(target, repo.name) == Some(repo)
            &&& repo.mirror
            &&& setup.can_reauth(repo)
        }),
{
    let p = |name: Seq<char>| setup.needs_reauth(target, name);
    let names = in_order(managed);
    lemma_listing_exists(managed);
    lemma_filter_member(names, p, i);
    let name = names.filter(p)[i];
    assert(names.to_set().contains(name));
    lemma_lookup_name(target, name);
}

proof fn lemma_rotation_sound(
    setup: Setup,
    target: Seq<RepoView>,
    queue: Seq<RepoView>,
    next: nat,
    state: StateView,
)
    requires
        finite(state),
        forall|i: int| 0 <= i < queue.len() ==> state.managed.contains(#[trigger] queue[i].name),
    ensures
        sound_outcome(state, setup.rotation_at(target, queue, next, state)),
{
    if next < queue.len() {
        assert(state.managed.contains(queue[next as int].name));
    }
}

proof fn lemma_without_broken_finite(target: Seq<RepoView>, state: StateView)
    requires
        state.managed.finite(),
    ensures
        without_broken(target, state).managed.finite(),
{
    vstd::set_lib::lemma_len_subset(without_broken(target, state).managed, state.managed);
}

proof fn lemma_list_source_sound(target: Seq<RepoView>, state: StateView)
    requires
        finite(state),
    ensures
        sound_outcome(state, list_source(target, state)),
{
    let out = without_broken(target, state);
    assert(out.managed.subset_of(state.managed));
    assert(state.managed.filter(|name: Seq<char>| !is_mirror(target, name)).subset_of(state.managed));
    lemma_without_broken_finite(target, state);
    vstd::set_lib::lemma_len_subset(
        state.managed.filter(|name: Seq<char>| !is_mirror(target, name)),
        state.managed,
    );
}

/// The mirrors to be synced are managed ones that are on the target and were not
/// synced yet; all of those are among them, and none twice.
proof fn lemma_unsynced(
    setup: Setup,
    target: Seq<RepoView>,
    managed: Set<Seq<char>>,
    synced: Set<Seq<char>>,
)
    requires
        managed.finite(),
    ensures
        ({
            let queue = setup.unsynced(target, in_order(managed), synced);
            &&& forall|i: int|
                0 <= i < queue.len() ==> managed.contains(#[trigger] queue[i]) && is_mirror(target, queue[i])
                    && !synced.contains(queue[i])
            &&& queue.no_duplicates()
            &&& queue.len() > 0 ==> setup.trigger_sync
            &&& setup.trigger_sync ==> forall|name: Seq<char>|
                managed.contains(name) && is_mirror(target, name) && !synced.contains(name)
                    ==> #[trigger] queue.contains(name)
        }),
{
    let p = |name: Seq<char>| is_mirror(target, name) && !synced.contains(name);
    let names = in_order(managed);
    let queue = setup.unsynced(target, names, synced);
    lemma_listing_exists(managed);
    if setup.trigger_sync {
        assert forall|i: int| 0 <= i < queue.len() implies managed.contains(#[trigger] queue[i])
            && is_mirror(target, queue[i]) && !synced.contains(queue[i]) by {
            lemma_filter_member(names, p, i);
            assert(names.to_set().contains(queue[i]));
        }
        lemma_ascending_distinct(names);
        lemma_filter_distinct(names, p);
        assert forall|name: Seq<char>|
            managed.contains(name) && is_mirror(target, name) && !synced.contains(name) implies #[trigger] queue.contains(
            name,
        ) by {
            assert(names.to_set().contains(name));
            lemma_filter_keeps(names, p, name);
        }
    }
}

proof fn lemma_ascending_distinct(names: Seq<Seq<char>>)
    requires
        ascending(names),
    ensures
        names.no_duplicates(),
{
    assert forall|i: int, j: int| 0 <= i < names.len() && 0 <= j < names.len() && i != j implies names[i]
        != names[j] by {
        lemma_before_irreflexive(names[i]);
    }
}

/// What filtering keeps of a sequence without repeats has none.
proof fn lemma_filter_distinct(names: Seq<Seq<char>>, p: spec_fn(Seq<char>) -> bool)
    requires
        names.no_duplicates(),
    ensures
        names.filter(p).no_duplicates(),
    decreases names.len(),
{
    reveal(Seq::filter);
    if names.len() > 0 {
        let rest = names.drop_last();
        let kept = rest.filter(p);
        lemma_filter_distinct(rest, p);
        assert forall|i: int| 0 <= i < kept.len() implies kept[i] != names.last() by {
            lemma_filter_member(rest, p, i);
            let k = choose|k: int| 0 <= k < rest.len() && rest[k] == kept[i];
            assert(names[k] == kept[i]);
        }
    }
}

proof fn lemma_sync_sound(
    target: Seq<RepoView>,
    queue: Seq<Seq<char>>,
    next: nat,
    state: StateView,
    summary: Summary,
)
    requires
        finite(state),
        forall|i: int| 0 <= i < queue.len() ==> state.managed.contains(#[trigger] queue[i]),
    ensures
        sound_outcome(state, sync_at(target, queue, next, state, summary)),
{
    if next < queue.len() {
        assert(state.managed.contains(queue[next as int]));
    }
}

proof fn lemma_mirror_sound(
    setup: Setup,
    target: Seq<RepoView>,
    chosen: Seq<SourceRepoView>,
    next: nat,
    now: Standing,
)
    requires
        finite(now.state),
    ensures
        sound_outcome(now.state, setup.mirror_at(target, chosen, next, now)),
    decreases chosen.len() - next,
{
    if next < chosen.len() {
        if let Turn::Over(after) = setup.turn_of(target, chosen, next, now) {
            lemma_mirror_sound(setup, target, chosen, next + 1, after);
        }
    } else {
        lemma_unsynced(setup, target, now.state.managed, now.synced);
        let queue = setup.unsynced(target, in_order(now.state.managed), now.synced);
        lemma_sync_sound(target, queue, 0, now.state, now.summary);
    }
}

proof fn lemma_step_sound(setup: Setup, stage: StageView, state: StateView, event: EventView)
    requires
        sound(stage, state),
    ensures
        sound_outcome(state, setup.step(stage, state, event)),
{
    match (stage, event) {
        (StageView::ListingTarget { startup }, EventView::TargetListed(target)) => {
            lemma_list_source_sound(target, state);
            let queue = setup.rotation_queue(target, in_order(state.managed));
            assert forall|i: int| 0 <= i < queue.len() implies state.managed.contains(
                #[trigger] queue[i].name,
            ) by {
                lemma_queue(setup, target, state.managed, i);
            }
            lemma_rotation_sound(setup, target, queue, 0, state);
        },
        (StageView::Rotating { target, queue, next, .. }, _) => {
            assert(state.managed.contains(queue[next as int].name));
            lemma_rotation_sound(setup, target, queue, next + 1, state);
        },
        (StageView::SavingToken { target }, _) => {
            lemma_list_source_sound(target, state);
        },
        (StageView::ListingSource { target }, EventView::SourceListed(repos)) => {
            let now = Standing::fresh(state);
            lemma_mirror_sound(setup, target, selected(setup.rules, repos), 0, now);
        },
        (StageView::Mirroring { target, selected, next, synced, summary, .. }, _) => {
            let now = Standing { state, synced, summary };
            let created = now.creating(selected[next as int].name);
            lemma_mirror_sound(setup, target, selected, next + 1, now);
            lemma_mirror_sound(setup, target, selected, next + 1, created);
        },
        (StageView::Syncing { target, names, next, summary }, _) => {
            lemma_sync_sound(target, names, next + 1, state, summary);
        },
        _ => {},
    }
}

proof fn lemma_pass_sound(setup: Setup, startup: bool, state: StateView, events: Seq<EventView>)
    requires
        finite(state),
    ensures
        ({
            let now = setup.after(startup, state, events);
            &&& sound(now.0, now.1)
            &&& state.blacklist.subset_of(now.1.blacklist)
            &&& forall|name: Seq<char>| is_banned(state, name) ==> #[trigger] is_banned(now.1, name)
            &&& forall|name: Seq<char>| #[trigger] is_both(now.1, name) ==> is_both(state, name)
        }),
        events.len() > 0 ==> (setup.last_step(startup, state, events).action matches ActionView::Call(
            call,
        ) ==> !is_banned(setup.after(startup, state, events).1, call.name())),
    decreases events.len(),
{
    if events.len() > 0 {
        lemma_pass_sound(setup, startup, state, events.drop_last());
        let before = setup.after(startup, state, events.drop_last());
        lemma_step_sound(setup, before.0, before.1, events.last());
        assert forall|name: Seq<char>| is_banned(state, name) implies #[trigger] is_banned(
            setup.after(startup, state, events).1,
            name,
        ) by {
            assert(is_banned(before.1, name));
        }
        assert forall|name: Seq<char>| #[trigger]
            is_both(setup.after(startup, state, events).1, name) implies is_both(state, name) by {
            assert(is_both(before.1, name));
        }
    }
}

/// No repository on the blacklist is touched in a pass: none is created, synced,
/// re-authenticated or deleted, nor taken under management.
pub proof fn law_blacklisted_is_left_alone(
    setup: Setup,
    startup: bool,
    state: StateView,
    events: Seq<EventView>,
    name: Seq<char>,
)
    requires
        finite(state),
        is_banned(state, name),
    ensures
        finite(setup.after(startup, state, events).1),
        is_banned(setup.after(startup, state, events).1, name),
        events.len() > 0 ==> (setup.last_step(startup, state, events).action matches ActionView::Call(
            call,
        ) ==> call.name() != name),
{
    lemma_pass_sound(setup, startup, state, events);
}

/// The blacklist only grows, and what is managed stays apart from it.
pub proof fn law_blacklist_grows(
    setup: Setup,
    startup: bool,
    state: StateView,
    events: Seq<EventView>,
)
    requires
        finite(state),
    ensures
        state.blacklist.subset_of(setup.after(startup, state, events).1.blacklist),
        state.managed.disjoint(state.blacklist) ==> setup.after(
            startup,
            state,
            events,
        ).1.managed.disjoint(setup.after(startup, state, events).1.blacklist),
{
    lemma_pass_sound(setup, startup, state, events);
    let now = setup.after(startup, state, events).1;
    if state.managed.disjoint(state.blacklist) {
        assert forall|name: Seq<char>| now.managed.contains(name) implies !now.blacklist.contains(name) by {
            if now.blacklist.contains(name) {
                assert(is_both(now, name));
            }
        }
    }
}

/// A pass: what its decisions rest on, and the events that it took in.
pub ghost struct PassView {
    pub setup: Setup,
    pub startup: bool,
    pub events: Seq<EventView>,
}

/// The state after these passes, finished or not.
pub open spec fn after_passes(state: StateView, passes: Seq<PassView>) -> StateView
    decreases passes.len(),
{
    if passes.len() == 0 {
        state
    } else {
        let pass = passes.last();
        pass.setup.after(pass.startup, after_passes(state, passes.drop_last()), pass.events).1
    }
}

/// What is blacklisted once is never touched again, in any later pass.
pub proof fn law_blacklisted_for_good(
    state: StateView,
    passes: Seq<PassView>,
    pass: PassView,
    name: Seq<char>,
)
    requires
        finite(state),
        is_banned(state, name),
    ensures
        finite(after_passes(state, passes)),
        is_banned(after_passes(state, passes), name),
        pass.events.len() > 0 ==> (pass.setup.last_step(
            pass.startup,
            after_passes(state, passes),
            pass.events,
        ).action matches ActionView::Call(call) ==> call.name() != name),
    decreases passes.len(),
{
    if passes.len() > 0 {
        let last = passes.last();
        let before = after_passes(state, passes.drop_last());
        law_blacklisted_for_good(state, passes.drop_last(), last, name);
        law_blacklisted_is_left_alone(last.setup, last.startup, before, last.events, name);
    }
    law_blacklisted_is_left_alone(
        pass.setup,
        pass.startup,
        after_passes(state, passes),
        pass.events,
        name,
    );
}

/// Whether the target was listed with these repositories.
pub open spec fn target_was(events: Seq<EventView>, target: Seq<RepoView>) -> bool {
    events.contains(EventView::TargetListed(target))
}

/// Whether the source was listed with these repositories.
pub open spec fn source_was(events: Seq<EventView>, repos: Seq<SourceRepoView>) -> bool {
    events.contains(EventView::SourceListed(repos))
}

/// Whether the target has a repository of this name that is no mirror.
pub open spec fn is_plain(target: Seq<RepoView>, name: Seq<char>) -> bool {
    lookup(target, name) matches Some(repo) && !repo.mirror
}

/// Whether one of the repositories has this name.
pub open spec fn has_name(repos: Seq<SourceRepoView>, name: Seq<char>) -> bool {
    exists|i: int| 0 <= i < repos.len() && #[trigger] repos[i].name == name
}

/// The names that a pass takes under management: those of the selected repositories
/// that are not blacklisted, nor in the way of a repository that is no mirror.
pub open spec fn taken_on(
    target: Seq<RepoView>,
    blacklist: Set<Seq<char>>,
    chosen: Seq<SourceRepoView>,
) -> Set<Seq<char>> {
    Set::new(
        |name: Seq<char>|
            has_name(chosen, name) && !blacklist.contains(name) && !is_plain(target, name),
    )
}

impl Setup {
    /// The state with the fingerprint that a pass leaves: on startup that of the token.
    pub open spec fn recorded(self, startup: bool, state: StateView) -> StateView {
        if startup {
            StateView { token_fingerprint: Some(self.fingerprint), ..state }
        } else {
            state
        }
    }

    /// The state that a pass leaves, given what the target and the source listed.
    pub open spec fn settled(
        self,
        startup: bool,
        state: StateView,
        target: Seq<RepoView>,
        repos: Seq<SourceRepoView>,
    ) -> StateView {
        let base = without_broken(target, self.recorded(startup, state));
        with_taken_on(base, target, selected(self.rules, repos))
    }

    /// Whether a managed mirror has to be re-authenticated, and can be.
    pub open spec fn rotates(self, state: StateView, target: Seq<RepoView>, repo: RepoView) -> bool {
        &&& self.token_changed(state)
        &&& state.managed.contains(repo.name)
        &&& lookup(target, repo.name) == Some(repo)
        &&& repo.mirror
        &&& self.can_reauth(repo)
    }

    /// Whether there is reason for a call, given what the forges listed: a new token
    /// for a PATCH or a deletion, which in turn must leave a URL to create the mirror
    /// again from; a selected repository that is missing on the target, or a mirror
    /// to be replaced, for a migration; the setting, for a sync of a managed mirror.
    pub open spec fn called_for(
        self,
        startup: bool,
        state: StateView,
        events: Seq<EventView>,
        call: CallView,
    ) -> bool {
        match call {
            CallView::PatchToken(name) => {
                &&& startup && self.uses_patch()
                &&& exists|target: Seq<RepoView>, repo: RepoView|
                    #![trigger target_was(events, target), self.rotates(state, target, repo)]
                    target_was(events, target) && self.rotates(state, target, repo) && repo.name == name
            },
            CallView::Delete(name) => {
                &&& startup
                &&& exists|target: Seq<RepoView>, repo: RepoView|
                    #![trigger target_was(events, target), self.rotates(state, target, repo)]
                    target_was(events, target) && self.rotates(state, target, repo) && repo.name == name
                        && repo.original_url.len() > 0
            },
            CallView::Migrate(migration) => {
                ||| startup && exists|target: Seq<RepoView>, repo: RepoView|
                    #![trigger target_was(events, target), self.rotates(state, target, repo)]
                    target_was(events, target) && self.rotates(state, target, repo) && migration
                        == self.recreated(repo) && repo.original_url.len() > 0
                ||| exists|target: Seq<RepoView>, repos: Seq<SourceRepoView>, i: int|
                    #![trigger target_was(events, target), source_was(events, repos), selected(self.rules, repos)[i]]
                    target_was(events, target) && source_was(events, repos) && 0 <= i < selected(
                        self.rules,
                        repos,
                    ).len() && migration == self.new_mirror(selected(self.rules, repos)[i])
                        && lookup(target, migration.name) is None
            },
            CallView::TriggerSync(name) => {
                &&& self.trigger_sync
                &&& self.after(startup, state, events).1.managed.contains(name)
                &&& exists|target: Seq<RepoView>| #[trigger]
                    target_was(events, target) && is_mirror(target, name)
            },
        }
    }
}

/// A state with the names added that a pass takes under management.
pub open spec fn with_taken_on(
    base: StateView,
    target: Seq<RepoView>,
    chosen: Seq<SourceRepoView>,
) -> StateView {
    StateView { managed: base.managed.union(taken_on(target, base.blacklist, chosen)), ..base }
}

/// How far a pass that began with the state `start` has come, by its stage.
spec fn on_course(
    setup: Setup,
    startup: bool,
    start: StateView,
    events: Seq<EventView>,
    stage: StageView,
    state: StateView,
) -> bool {
    &&& state.managed.finite()
    &&& match stage {
        StageView::Start { startup: s } => s == startup && state == start,
        StageView::ListingTarget { startup: s } => s == startup && state == start,
        StageView::Rotating { target, queue, next, call } => {
            &&& startup
            &&& state == start
            &&& target_was(events, target)
            &&& next < queue.len()
            &&& forall|i: int| 0 <= i < queue.len() ==> setup.rotates(start, target, #[trigger] queue[i])
            &&& call == Reauth::Patch ==> setup.uses_patch()
            &&& call != Reauth::Patch ==> queue[next as int].original_url.len() > 0
        },
        StageView::SavingToken { target } => {
            &&& startup
            &&& target_was(events, target)
            &&& state == setup.recorded(startup, start)
        },
        StageView::ListingSource { target } => {
            &&& target_was(events, target)
            &&& state == without_broken(target, setup.recorded(startup, start))
        },
        StageView::Mirroring { target, selected: chosen, .. } => {
            &&& target_was(events, target)
            &&& exists|repos: Seq<SourceRepoView>| #[trigger]
                source_was(events, repos) && chosen == selected(setup.rules, repos)
            &&& mirroring_on_course(
                setup,
                without_broken(target, setup.recorded(startup, start)),
                stage,
                state,
            )
        },
        StageView::Syncing { target, .. } => {
            &&& target_was(events, target)
            &&& exists|repos: Seq<SourceRepoView>| #[trigger]
                source_was(events, repos) && state == setup.settled(startup, start, target, repos)
            &&& syncing_on_course(setup, stage, state)
        },
        StageView::Saving { .. } => exists|target: Seq<RepoView>, repos: Seq<SourceRepoView>|
            #![trigger target_was(events, target), source_was(events, repos)]
            target_was(events, target) && source_was(events, repos) && state == setup.settled(
                startup,
                start,
                target,
                repos,
            ),
        StageView::Ended => {
            ||| state.token_fingerprint == start.token_fingerprint
            ||| startup && state.token_fingerprint == Some(setup.fingerprint)
        },
    }
}

spec fn mirroring_on_course(setup: Setup, base: StateView, stage: StageView, state: StateView) -> bool {
    stage matches StageView::Mirroring { target, selected: chosen, next, syncing, .. } && {
        &&& next < chosen.len()
        &&& !base.blacklist.contains(chosen[next as int].name)
        &&& if syncing {
            &&& setup.trigger_sync
            &&& is_mirror(target, chosen[next as int].name)
            &&& state == with_taken_on(base, target, chosen.take(next as int + 1))
        } else {
            &&& lookup(target, chosen[next as int].name) is None
            &&& state == with_taken_on(base, target, chosen.take(next as int))
        }
    }
}

spec fn syncing_on_course(setup: Setup, stage: StageView, state: StateView) -> bool {
    stage matches StageView::Syncing { target, names, next, .. } && {
        &&& setup.trigger_sync
        &&& next < names.len()
        &&& forall|i: int|
            0 <= i < names.len() ==> state.managed.contains(#[trigger] names[i]) && is_mirror(
                target,
                names[i],
            )
    }
}

/// The call that a pass waits for.
spec fn awaited(setup: Setup, stage: StageView) -> Option<CallView> {
    match stage {
        StageView::Rotating { queue, next, call, .. } => Some(
            match call {
                Reauth::Patch => CallView::PatchToken(queue[next as int].name),
                Reauth::Delete => CallView::Delete(queue[next as int].name),
                Reauth::Migrate => CallView::Migrate(setup.recreated(queue[next as int])),
            },
        ),
        StageView::Mirroring { selected, next, syncing, .. } => Some(
            if syncing {
                CallView::TriggerSync(selected[next as int].name)
            } else {
                CallView::Migrate(setup.new_mirror(selected[next as int]))
            },
        ),
        StageView::Syncing { names, next, .. } => Some(CallView::TriggerSync(names[next as int])),
        _ => None,
    }
}

/// Whether the action of an outcome is the call that its stage waits for.
spec fn asks_awaited(setup: Setup, out: Outcome) -> bool {
    match awaited(setup, out.stage) {
        Some(call) => out.action == ActionView::Call(call),
        None => !(out.action is Call),
    }
}

/// One more repository is taken on where it may be.
proof fn lemma_taken_on(
    base: StateView,
    target: Seq<RepoView>,
    chosen: Seq<SourceRepoView>,
    next: int,
)
    requires
        0 <= next < chosen.len(),
    ensures
        ({
            let name = chosen[next].name;
            let before = with_taken_on(base, target, chosen.take(next));
            let after = with_taken_on(base, target, chosen.take(next + 1));
            if base.blacklist.contains(name) || is_plain(target, name) {
                after == before
            } else {
                after == (StateView { managed: before.managed.insert(name), ..before })
            }
        }),
{
    let name = chosen[next].name;
    let fewer = chosen.take(next);
    let more = chosen.take(next + 1);
    assert(more[next] == chosen[next]);
    assert forall|n: Seq<char>| has_name(more, n) == (has_name(fewer, n) || n == name) by {
        if has_name(more, n) && n != name {
            let i = choose|i: int| 0 <= i < more.len() && #[trigger] more[i].name == n;
            assert(fewer[i].name == n);
        }
        if has_name(fewer, n) {
            let i = choose|i: int| 0 <= i < fewer.len() && #[trigger] fewer[i].name == n;
            assert(more[i].name == n);
        }
        if n == name {
            assert(more[next].name == n);
        }
    }
    let before = with_taken_on(base, target, fewer);
    let after = with_taken_on(base, target, more);
    if base.blacklist.contains(name) || is_plain(target, name) {
        assert(after.managed =~= before.managed);
    } else {
        assert(after.managed =~= before.managed.insert(name));
    }
}

proof fn lemma_mirror_on_course(
    setup: Setup,
    base: StateView,
    target: Seq<RepoView>,
    chosen: Seq<SourceRepoView>,
    next: nat,
    now: Standing,
)
    requires
        next <= chosen.len(),
        now.state.managed.finite(),
        now.state == with_taken_on(base, target, chosen.take(next as int)),
    ensures
        ({
            let out = setup.mirror_at(target, chosen, next, now);
            &&& out.state.managed.finite()
            &&& asks_awaited(setup, out)
            &&& match out.stage {
                StageView::Mirroring { target: t, selected: c, .. } => {
                    t == target && c == chosen && mirroring_on_course(setup, base, out.stage, out.state)
                },
                StageView::Syncing { target: t, .. } => {
                    &&& t == target
                    &&& out.state == with_taken_on(base, target, chosen)
                    &&& syncing_on_course(setup, out.stage, out.state)
                },
                StageView::Saving { .. } => {
                    out.state == with_taken_on(base, target, chosen) && out.action
                        == ActionView::SaveState
                },
                _ => false,
            }
        }),
    decreases chosen.len() - next,
{
    if next >= chosen.len() {
        assert(chosen.take(next as int) == chosen);
        lemma_unsynced(setup, target, now.state.managed, now.synced);
    } else {
        lemma_taken_on(base, target, chosen, next as int);
        if let Turn::Over(after) = setup.turn_of(target, chosen, next, now) {
            lemma_mirror_on_course(setup, base, target, chosen, next + 1, after);
        }
    }
}

/// What was listed stays listed.
proof fn lemma_was(events: Seq<EventView>, event: EventView)
    ensures
        forall|target: Seq<RepoView>| #[trigger]
            target_was(events.push(event), target) == (target_was(events, target) || event
                == EventView::TargetListed(target)),
        forall|repos: Seq<SourceRepoView>| #[trigger]
            source_was(events.push(event), repos) == (source_was(events, repos) || event
                == EventView::SourceListed(repos)),
{
    let more = events.push(event);
    assert forall|e: EventView| #[trigger] more.contains(e) == (events.contains(e) || e == event) by {
        if events.contains(e) {
            let i = choose|i: int| 0 <= i < events.len() && events[i] == e;
            assert(more[i] == e);
        }
        if more.contains(e) && e != event {
            let i = choose|i: int| 0 <= i < more.len() && more[i] == e;
            assert(events[i] == e);
        }
        assert(more[events.len() as int] == event);
    }
}

proof fn lemma_rotation_on_course(
    setup: Setup,
    start: StateView,
    events: Seq<EventView>,
    target: Seq<RepoView>,
    queue: Seq<RepoView>,
    next: nat,
)
    requires
        start.managed.finite(),
        target_was(events, target),
        forall|i: int| 0 <= i < queue.len() ==> setup.rotates(start, target, #[trigger] queue[i]),
    ensures
        ({
            let out = setup.rotation_at(target, queue, next, start);
            on_course(setup, true, start, events, out.stage, out.state) && asks_awaited(setup, out)
        }),
{
    if next < queue.len() {
        assert(setup.rotates(start, target, queue[next as int]));
    }
}

proof fn lemma_step_on_course(
    setup: Setup,
    startup: bool,
    start: StateView,
    events: Seq<EventView>,
    stage: StageView,
    state: StateView,
    event: EventView,
)
    requires
        start.managed.finite(),
        on_course(setup, startup, start, events, stage, state),
    ensures
        ({
            let out = setup.step(stage, state, event);
            &&& on_course(setup, startup, start, events.push(event), out.stage, out.state)
            &&& asks_awaited(setup, out)
            &&& out.action is Finish ==> stage is Saving && out.state == state
        }),
{
    let more = events.push(event);
    lemma_was(events, event);
    match (stage, event) {
        (StageView::ListingTarget { .. }, EventView::TargetListed(target)) => {
            assert(target_was(more, target));
            lemma_without_broken_finite(target, state);
            let queue = setup.rotation_queue(target, in_order(state.managed));
            assert forall|i: int| 0 <= i < queue.len() && start.token_fingerprint is Some
                && start.token_fingerprint != Some(setup.fingerprint) implies setup.rotates(
                start,
                target,
                #[trigger] queue[i],
            ) by {
                lemma_queue(setup, target, state.managed, i);
            }
            if start.token_fingerprint is Some && start.token_fingerprint != Some(setup.fingerprint) {
                lemma_rotation_on_course(setup, start, more, target, queue, 0);
            }
        },
        (StageView::Rotating { target, queue, next, .. }, _) => {
            assert(target_was(more, target));
            assert(setup.rotates(start, target, queue[next as int]));
            lemma_rotation_on_course(setup, start, more, target, queue, next + 1);
        },
        (StageView::SavingToken { target }, _) => {
            assert(target_was(more, target));
            lemma_without_broken_finite(target, state);
        },
        (StageView::ListingSource { target }, EventView::SourceListed(repos)) => {
            assert(target_was(more, target));
            assert(source_was(more, repos));
            let base = without_broken(target, setup.recorded(startup, start));
            let chosen = selected(setup.rules, repos);
            assert(chosen.take(0) =~= Seq::empty());
            assert(with_taken_on(base, target, chosen.take(0)).managed =~= base.managed);
            lemma_mirror_on_course(setup, base, target, chosen, 0, Standing::fresh(state));
        },
        (StageView::Mirroring { target, selected: chosen, next, syncing, synced, summary }, _) => {
            let repos = choose|repos: Seq<SourceRepoView>| #[trigger]
                source_was(events, repos) && chosen == selected(setup.rules, repos);
            assert(target_was(more, target));
            assert(source_was(more, repos));
            let base = without_broken(target, setup.recorded(startup, start));
            let now = Standing { state, synced, summary };
            lemma_taken_on(base, target, chosen, next as int);
            if syncing {
                lemma_mirror_on_course(setup, base, target, chosen, next + 1, now);
            } else {
                let created = now.creating(chosen[next as int].name);
                lemma_mirror_on_course(setup, base, target, chosen, next + 1, created);
            }
        },
        (StageView::Syncing { target, .. }, _) => {
            let repos = choose|repos: Seq<SourceRepoView>| #[trigger]
                source_was(events, repos) && state == setup.settled(startup, start, target, repos);
            assert(target_was(more, target));
            assert(source_was(more, repos));
        },
        _ => {},
    }
}

proof fn lemma_pass_on_course(setup: Setup, startup: bool, state: StateView, events: Seq<EventView>)
    requires
        state.managed.finite(),
    ensures
        ({
            let now = setup.after(startup, state, events);
            on_course(setup, startup, state, events, now.0, now.1)
        }),
        events.len() > 0 ==> asks_awaited(setup, setup.last_step(startup, state, events)),
    decreases events.len(),
{
    if events.len() > 0 {
        let rest = events.drop_last();
        lemma_pass_on_course(setup, startup, state, rest);
        let before = setup.after(startup, state, rest);
        lemma_step_on_course(setup, startup, state, rest, before.0, before.1, events.last());
        assert(rest.push(events.last()) == events);
    }
}

/// A pass makes no call without a reason. In particular nothing is deleted or patched
/// unless the token changed, nothing is deleted that could not be created again, and
/// no mirror is created where the target already has a repository of that name.
pub proof fn law_calls_are_called_for(
    setup: Setup,
    startup: bool,
    state: StateView,
    events: Seq<EventView>,
)
    requires
        state.managed.finite(),
        events.len() > 0,
    ensures
        setup.last_step(startup, state, events).action matches ActionView::Call(call)
            ==> setup.called_for(startup, state, events, call),
{
    lemma_pass_on_course(setup, startup, state, events);
    let out = setup.last_step(startup, state, events);
    if let ActionView::Call(call) = out.action {
        match out.stage {
            StageView::Rotating { target, queue, next, .. } => {
                assert(setup.rotates(state, target, queue[next as int]));
            },
            StageView::Mirroring { target, selected: chosen, next, .. } => {
                let repos = choose|repos: Seq<SourceRepoView>| #[trigger]
                    source_was(events, repos) && chosen == selected(setup.rules, repos);
                assert(selected(setup.rules, repos)[next as int] == chosen[next as int]);
                let base = without_broken(target, setup.recorded(startup, state));
                lemma_taken_on(base, target, chosen, next as int);
            },
            StageView::Syncing { target, names, next, .. } => {
                assert(is_mirror(target, names[next as int]));
            },
            _ => {},
        }
    }
}

/// A pass that is finished has blacklisted every managed mirror that was converted or
/// removed, manages the healthy ones and all that was selected and free to be
/// mirrored, and on startup has recorded the token; nothing else has changed.
pub proof fn law_finished_pass_settles(
    setup: Setup,
    startup: bool,
    state: StateView,
    events: Seq<EventView>,
)
    requires
        state.managed.finite(),
        events.len() > 0,
        setup.last_step(startup, state, events).action is Finish,
    ensures
        exists|target: Seq<RepoView>, repos: Seq<SourceRepoView>|
            #![trigger target_was(events, target), source_was(events, repos)]
            target_was(events, target) && source_was(events, repos) && setup.after(
                startup,
                state,
                events,
            ).1 == setup.settled(startup, state, target, repos),
{
    let rest = events.drop_last();
    lemma_pass_on_course(setup, startup, state, rest);
    let before = setup.after(startup, state, rest);
    lemma_step_on_course(setup, startup, state, rest, before.0, before.1, events.last());
    lemma_was(rest, events.last());
    assert(rest.push(events.last()) == events);
    let (target, repos) = choose|target: Seq<RepoView>, repos: Seq<SourceRepoView>|
        #![trigger target_was(rest, target), source_was(rest, repos)]
        target_was(rest, target) && source_was(rest, repos) && before.1 == setup.settled(
            startup,
            state,
            target,
            repos,
        );
    assert(target_was(events, target) && source_was(events, repos));
}

/// Before the source is asked for, every managed mirror that the user converted or
/// removed is blacklisted, and the others stay managed.
pub proof fn law_broken_mirror_is_blacklisted(
    setup: Setup,
    startup: bool,
    state: StateView,
    events: Seq<EventView>,
    target: Seq<RepoView>,
    name: Seq<char>,
)
    requires
        state.managed.finite(),
        state.managed.contains(name),
        setup.after(startup, state, events).0 == (StageView::ListingSource { target }),
    ensures
        target_was(events, target),
        is_mirror(target, name) ==> setup.after(startup, state, events).1.managed.contains(name),
        !is_mirror(target, name) ==> is_banned(setup.after(startup, state, events).1, name),
{
    lemma_pass_on_course(setup, startup, state, events);
}

/// The fingerprint of a new token is recorded only after the re-authentication: a
/// pass that fails before leaves the state as it was, so the next startup begins it
/// anew. No other fingerprint is ever recorded.
pub proof fn law_token_is_recorded_last(
    setup: Setup,
    startup: bool,
    state: StateView,
    events: Seq<EventView>,
)
    requires
        state.managed.finite(),
    ensures
        ({
            let now = setup.after(startup, state, events);
            &&& now.0 is Rotating ==> now.1 == state
            &&& {
                ||| now.1.token_fingerprint == state.token_fingerprint
                ||| startup && now.1.token_fingerprint == Some(setup.fingerprint)
            }
        }),
        events.len() > 0 && setup.after(startup, state, events.drop_last()).0 is Rotating
            && setup.last_step(startup, state, events).action is Fail ==> setup.after(
            startup,
            state,
            events,
        ).1 == state,
{
    lemma_pass_on_course(setup, startup, state, events);
    if events.len() > 0 {
        lemma_pass_on_course(setup, startup, state, events.drop_last());
    }
}

/// A mirror is deleted only to be created again, at once and under the same name, from
/// the URL that the target recorded; where every mirror is to be private, so is this.
pub proof fn law_deleted_mirror_is_created_again(
    setup: Setup,
    startup: bool,
    state: StateView,
    events: Seq<EventView>,
    name: Seq<char>,
)
    requires
        state.managed.finite(),
        events.len() > 0,
        setup.last_step(startup, state, events).action == ActionView::Call(CallView::Delete(name)),
    ensures
        exists|target: Seq<RepoView>, repo: RepoView|
            #![trigger target_was(events, target), setup.rotates(state, target, repo)]
            target_was(events, target) && setup.rotates(state, target, repo) && repo.name == name
                && repo.original_url.len() > 0 && setup.last_step(
                startup,
                state,
                events.push(EventView::Succeeded),
            ).action == ActionView::Call(CallView::Migrate(setup.recreated(repo))) && (
            setup.mirror_private ==> setup.recreated(repo).private),
{
    lemma_pass_on_course(setup, startup, state, events);
    let out = setup.last_step(startup, state, events);
    assert(events.push(EventView::Succeeded).drop_last() == events);
    if let StageView::Rotating { target, queue, next, call } = out.stage {
        assert(setup.rotates(state, target, queue[next as int]));
        assert(target_was(events, target));
    }
}

/// After a pass, another one over the same source changes nothing, as long as the
/// managed mirrors are there and what was no mirror is none.
pub proof fn law_second_pass_changes_nothing(
    setup: Setup,
    startup: bool,
    state: StateView,
    target: Seq<RepoView>,
    later: Seq<RepoView>,
    repos: Seq<SourceRepoView>,
)
    requires
        forall|name: Seq<char>|
            setup.settled(startup, state, target, repos).managed.contains(name) ==> #[trigger] is_mirror(
                later,
                name,
            ),
        forall|name: Seq<char>| #[trigger] is_plain(target, name) ==> is_plain(later, name),
    ensures
        setup.settled(
            startup,
            setup.settled(startup, state, target, repos),
            later,
            repos,
        ) == setup.settled(startup, state, target, repos),
{
    let once = setup.settled(startup, state, target, repos);
    let twice = setup.settled(startup, once, later, repos);
    assert(twice.blacklist =~= once.blacklist);
    assert(twice.managed =~= once.managed);
}

impl Setup {
    /// Whether in the course of a pass the call was made, and answered so.
    pub open spec fn was_answered(
        self,
        startup: bool,
        state: StateView,
        events: Seq<EventView>,
        call: CallView,
        answer: EventView,
    ) -> bool {
        exists|k: int|
            0 < k < events.len() && #[trigger] self.last_step(startup, state, events.take(k)).action
                == ActionView::Call(call) && events[k] == answer
    }

    /// Whether a mirror was re-authenticated: by a PATCH, or by being created again;
    /// or the PATCH was tried and failed, and there is no URL to create it again from.
    pub open spec fn was_reauthenticated(
        self,
        startup: bool,
        state: StateView,
        events: Seq<EventView>,
        repo: RepoView,
    ) -> bool {
        let patch = CallView::PatchToken(repo.name);
        ||| self.was_answered(startup, state, events, patch, EventView::Succeeded)
        ||| self.was_answered(
            startup,
            state,
            events,
            CallView::Migrate(self.recreated(repo)),
            EventView::Succeeded,
        )
        ||| repo.original_url.len() == 0 && self.was_answered(
            startup,
            state,
            events,
            patch,
            EventView::Failed,
        )
    }

    /// Whether a mirror was created for a source repository.
    pub open spec fn was_created(
        self,
        startup: bool,
        state: StateView,
        events: Seq<EventView>,
        repo: SourceRepoView,
    ) -> bool {
        self.was_answered(
            startup,
            state,
            events,
            CallView::Migrate(self.new_mirror(repo)),
            EventView::Succeeded,
        )
    }
}

spec fn rotation_done(
    setup: Setup,
    startup: bool,
    start: StateView,
    events: Seq<EventView>,
    queue: Seq<RepoView>,
    count: int,
) -> bool {
    forall|i: int|
        0 <= i < count ==> setup.was_reauthenticated(startup, start, events, #[trigger] queue[i])
}

spec fn all_rotated(
    setup: Setup,
    startup: bool,
    start: StateView,
    events: Seq<EventView>,
    target: Seq<RepoView>,
) -> bool {
    let queue = setup.rotation_queue(target, in_order(start.managed));
    startup && setup.token_changed(start) ==> rotation_done(
        setup,
        startup,
        start,
        events,
        queue,
        queue.len() as int,
    )
}

spec fn mirrors_done(
    setup: Setup,
    startup: bool,
    start: StateView,
    events: Seq<EventView>,
    target: Seq<RepoView>,
    chosen: Seq<SourceRepoView>,
    count: int,
) -> bool {
    let blacklist = without_broken(target, start).blacklist;
    forall|i: int|
        0 <= i < count && !blacklist.contains((#[trigger] chosen[i]).name) && lookup(
            target,
            chosen[i].name,
        ) is None ==> setup.was_created(startup, start, events, chosen[i])
}

spec fn all_mirrored(
    setup: Setup,
    startup: bool,
    start: StateView,
    events: Seq<EventView>,
    target: Seq<RepoView>,
    repos: Seq<SourceRepoView>,
) -> bool {
    let chosen = selected(setup.rules, repos);
    &&& all_rotated(setup, startup, start, events, target)
    &&& mirrors_done(setup, startup, start, events, target, chosen, chosen.len() as int)
}

/// What a pass has got done, by its stage.
spec fn done_so_far(
    setup: Setup,
    startup: bool,
    start: StateView,
    events: Seq<EventView>,
    stage: StageView,
) -> bool {
    match stage {
        StageView::Rotating { target, queue, next, .. } => {
            &&& queue == setup.rotation_queue(target, in_order(start.managed))
            &&& rotation_done(setup, startup, start, events, queue, next as int)
        },
        StageView::SavingToken { target } => all_rotated(setup, startup, start, events, target),
        StageView::ListingSource { target } => all_rotated(setup, startup, start, events, target),
        StageView::Mirroring { target, selected: chosen, next, .. } => {
            &&& all_rotated(setup, startup, start, events, target)
            &&& mirrors_done(setup, startup, start, events, target, chosen, next as int)
        },
        StageView::Syncing { target, .. } => exists|repos: Seq<SourceRepoView>| #[trigger]
            source_was(events, repos) && all_mirrored(setup, startup, start, events, target, repos),
        StageView::Saving { .. } => exists|target: Seq<RepoView>, repos: Seq<SourceRepoView>|
            #![trigger target_was(events, target), source_was(events, repos)]
            target_was(events, target) && source_was(events, repos) && all_mirrored(
                setup,
                startup,
                start,
                events,
                target,
                repos,
            ),
        _ => true,
    }
}

/// What was answered stays answered.
proof fn lemma_answered_stays(
    setup: Setup,
    startup: bool,
    start: StateView,
    events: Seq<EventView>,
    event: EventView,
    call: CallView,
    answer: EventView,
)
    requires
        setup.was_answered(startup, start, events, call, answer),
    ensures
        setup.was_answered(startup, start, events.push(event), call, answer),
{
    let k = choose|k: int|
        0 < k < events.len() && #[trigger] setup.last_step(startup, start, events.take(k)).action
            == ActionView::Call(call) && events[k] == answer;
    let more = events.push(event);
    assert(more.take(k) == events.take(k));
    assert(more[k] == answer);
}

/// The call that a pass waits for is answered by the next event.
proof fn lemma_answered_now(
    setup: Setup,
    startup: bool,
    start: StateView,
    events: Seq<EventView>,
    event: EventView,
    call: CallView,
)
    requires
        events.len() > 0,
        setup.last_step(startup, start, events).action == ActionView::Call(call),
    ensures
        setup.was_answered(startup, start, events.push(event), call, event),
{
    let more = events.push(event);
    let k = events.len() as int;
    assert(more.take(k) == events);
    assert(setup.last_step(startup, start, more.take(k)).action == ActionView::Call(call));
    assert(more[k] == event);
}

proof fn lemma_rotation_done_stays(
    setup: Setup,
    startup: bool,
    start: StateView,
    events: Seq<EventView>,
    event: EventView,
    queue: Seq<RepoView>,
    count: int,
)
    requires
        rotation_done(setup, startup, start, events, queue, count),
    ensures
        rotation_done(setup, startup, start, events.push(event), queue, count),
{
    assert forall|i: int| 0 <= i < count implies setup.was_reauthenticated(
        startup,
        start,
        events.push(event),
        #[trigger] queue[i],
    ) by {
        let repo = queue[i];
        let patch = CallView::PatchToken(repo.name);
        let again = CallView::Migrate(setup.recreated(repo));
        if setup.was_answered(startup, start, events, patch, EventView::Succeeded) {
            lemma_answered_stays(setup, startup, start, events, event, patch, EventView::Succeeded);
        } else if setup.was_answered(startup, start, events, again, EventView::Succeeded) {
            lemma_answered_stays(setup, startup, start, events, event, again, EventView::Succeeded);
        } else {
            lemma_answered_stays(setup, startup, start, events, event, patch, EventView::Failed);
        }
    }
}

proof fn lemma_all_rotated_stays(
    setup: Setup,
    startup: bool,
    start: StateView,
    events: Seq<EventView>,
    event: EventView,
    target: Seq<RepoView>,
)
    requires
        all_rotated(setup, startup, start, events, target),
    ensures
        all_rotated(setup, startup, start, events.push(event), target),
{
    let queue = setup.rotation_queue(target, in_order(start.managed));
    if startup && setup.token_changed(start) {
        lemma_rotation_done_stays(setup, startup, start, events, event, queue, queue.len() as int);
    }
}

proof fn lemma_mirrors_done_stays(
    setup: Setup,
    startup: bool,
    start: StateView,
    events: Seq<EventView>,
    event: EventView,
    target: Seq<RepoView>,
    chosen: Seq<SourceRepoView>,
    count: int,
)
    requires
        mirrors_done(setup, startup, start, events, target, chosen, count),
    ensures
        mirrors_done(setup, startup, start, events.push(event), target, chosen, count),
{
    let blacklist = without_broken(target, start).blacklist;
    assert forall|i: int|
        0 <= i < count && !blacklist.contains((#[trigger] chosen[i]).name) && lookup(
            target,
            chosen[i].name,
        ) is None implies setup.was_created(startup, start, events.push(event), chosen[i]) by {
        let call = CallView::Migrate(setup.new_mirror(chosen[i]));
        lemma_answered_stays(setup, startup, start, events, event, call, EventView::Succeeded);
    }
}

proof fn lemma_all_mirrored_stays(
    setup: Setup,
    startup: bool,
    start: StateView,
    events: Seq<EventView>,
    event: EventView,
    target: Seq<RepoView>,
    repos: Seq<SourceRepoView>,
)
    requires
        all_mirrored(setup, startup, start, events, target, repos),
    ensures
        all_mirrored(setup, startup, start, events.push(event), target, repos),
{
    let chosen = selected(setup.rules, repos);
    let count = chosen.len() as int;
    lemma_all_rotated_stays(setup, startup, start, events, event, target);
    lemma_mirrors_done_stays(setup, startup, start, events, event, target, chosen, count);
}

/// Going on from the repository at `next`, nothing that is missing is passed over.
proof fn lemma_mirror_done(
    setup: Setup,
    startup: bool,
    start: StateView,
    events: Seq<EventView>,
    target: Seq<RepoView>,
    chosen: Seq<SourceRepoView>,
    next: nat,
    now: Standing,
)
    requires
        next <= chosen.len(),
        now.state.blacklist == without_broken(target, start).blacklist,
        mirrors_done(setup, startup, start, events, target, chosen, next as int),
    ensures
        ({
            let count = chosen.len() as int;
            match setup.mirror_at(target, chosen, next, now).stage {
                StageView::Mirroring { target: t, selected: c, next: n, .. } => {
                    &&& t == target && c == chosen
                    &&& mirrors_done(setup, startup, start, events, target, chosen, n as int)
                },
                StageView::Syncing { target: t, .. } => {
                    &&& t == target
                    &&& mirrors_done(setup, startup, start, events, target, chosen, count)
                },
                StageView::Saving { .. } => {
                    mirrors_done(setup, startup, start, events, target, chosen, count)
                },
                _ => false,
            }
        }),
    decreases chosen.len() - next,
{
    if next < chosen.len() {
        if let Turn::Over(after) = setup.turn_of(target, chosen, next, now) {
            assert(mirrors_done(setup, startup, start, events, target, chosen, next as int + 1));
            lemma_mirror_done(setup, startup, start, events, target, chosen, next + 1, after);
        }
    }
}

proof fn lemma_mirroring_done(
    setup: Setup,
    startup: bool,
    start: StateView,
    events: Seq<EventView>,
    stage: StageView,
    state: StateView,
    event: EventView,
)
    requires
        stage is Mirroring,
        on_course(setup, startup, start, events, stage, state),
        done_so_far(setup, startup, start, events, stage),
        awaited(setup, stage) matches Some(call) && events.len() > 0 && setup.last_step(
            startup,
            start,
            events,
        ).action == ActionView::Call(call),
    ensures
        done_so_far(
            setup,
            startup,
            start,
            events.push(event),
            setup.step(stage, state, event).stage,
        ),
{
    let more = events.push(event);
    lemma_was(events, event);
    if let StageView::Mirroring { target, selected: chosen, next, syncing, synced, summary } = stage {
        let at = next as int;
        lemma_all_rotated_stays(setup, startup, start, events, event, target);
        lemma_mirrors_done_stays(setup, startup, start, events, event, target, chosen, at);
        if let Some(made) = awaited(setup, stage) {
            lemma_answered_now(setup, startup, start, events, event, made);
        }
        let repos = choose|repos: Seq<SourceRepoView>| #[trigger]
            source_was(events, repos) && chosen == selected(setup.rules, repos);
        assert(target_was(more, target) && source_was(more, repos));
        let now = Standing { state, synced, summary };
        if syncing && (event is Succeeded || event is Failed) {
            assert(mirrors_done(setup, startup, start, more, target, chosen, at + 1));
            lemma_mirror_done(setup, startup, start, more, target, chosen, next + 1, now);
        } else if !syncing && event is Succeeded {
            let created = now.creating(chosen[at].name);
            assert(mirrors_done(setup, startup, start, more, target, chosen, at + 1));
            lemma_mirror_done(setup, startup, start, more, target, chosen, next + 1, created);
        }
    }
}

proof fn lemma_step_done(
    setup: Setup,
    startup: bool,
    start: StateView,
    events: Seq<EventView>,
    stage: StageView,
    state: StateView,
    event: EventView,
)
    requires
        start.managed.finite(),
        on_course(setup, startup, start, events, stage, state),
        done_so_far(setup, startup, start, events, stage),
        awaited(setup, stage) matches Some(call) ==> events.len() > 0 && setup.last_step(
            startup,
            start,
            events,
        ).action == ActionView::Call(call),
    ensures
        done_so_far(
            setup,
            startup,
            start,
            events.push(event),
            setup.step(stage, state, event).stage,
        ),
{
    let more = events.push(event);
    let out = setup.step(stage, state, event);
    lemma_was(events, event);
    match stage {
        StageView::ListingTarget { .. } => {},
        StageView::Rotating { target, queue, next, call } => {
            lemma_rotation_done_stays(setup, startup, start, events, event, queue, next as int);
            if let Some(made) = awaited(setup, stage) {
                lemma_answered_now(setup, startup, start, events, event, made);
            }
            assert(setup.rotates(start, target, queue[next as int]));
            if out.stage is SavingToken || (out.stage matches StageView::Rotating { next: n, .. } && n
                == next + 1) {
                assert(setup.was_reauthenticated(startup, start, more, queue[next as int]));
                assert(rotation_done(setup, startup, start, more, queue, next as int + 1));
            }
        },
        StageView::SavingToken { target } => {
            lemma_all_rotated_stays(setup, startup, start, events, event, target);
        },
        StageView::ListingSource { target } => {
            lemma_all_rotated_stays(setup, startup, start, events, event, target);
            if let EventView::SourceListed(repos) = event {
                let chosen = selected(setup.rules, repos);
                let now = Standing::fresh(state);
                lemma_mirror_done(setup, startup, start, more, target, chosen, 0, now);
                assert(target_was(more, target) && source_was(more, repos));
            }
        },
        StageView::Mirroring { .. } => {
            lemma_mirroring_done(setup, startup, start, events, stage, state, event);
        },
        StageView::Syncing { target, .. } => {
            let repos = choose|repos: Seq<SourceRepoView>| #[trigger]
                source_was(events, repos) && all_mirrored(setup, startup, start, events, target, repos);
            assert(target_was(more, target) && source_was(more, repos));
            lemma_all_mirrored_stays(setup, startup, start, events, event, target, repos);
        },
        _ => {},
    }
}

proof fn lemma_pass_done(setup: Setup, startup: bool, state: StateView, events: Seq<EventView>)
    requires
        state.managed.finite(),
    ensures
        done_so_far(setup, startup, state, events, setup.after(startup, state, events).0),
    decreases events.len(),
{
    if events.len() > 0 {
        let rest = events.drop_last();
        lemma_pass_done(setup, startup, state, rest);
        lemma_pass_on_course(setup, startup, state, rest);
        let before = setup.after(startup, state, rest);
        lemma_step_done(setup, startup, state, rest, before.0, before.1, events.last());
        assert(rest.push(events.last()) == events);
    }
}

/// Every name that passes the test is among those that filtering keeps.
proof fn lemma_filter_keeps(
    names: Seq<Seq<char>>,
    p: spec_fn(Seq<char>) -> bool,
    name: Seq<char>,
)
    requires
        names.contains(name),
        p(name),
    ensures
        names.filter(p).contains(name),
    decreases names.len(),
{
    reveal(Seq::filter);
    let rest = names.drop_last();
    let kept = names.filter(p);
    if names.last() == name {
        assert(kept[kept.len() - 1] == name);
    } else {
        let k = choose|k: int| 0 <= k < names.len() && names[k] == name;
        assert(rest[k] == name);
        lemma_filter_keeps(rest, p, name);
        let j = choose|j: int| 0 <= j < rest.filter(p).len() && rest.filter(p)[j] == name;
        assert(kept[j] == name);
    }
}

/// A finished pass has done its work: on startup with a new token every managed
/// mirror that can be re-authenticated was, and for every selected repository that is
/// not blacklisted and was missing on the target a mirror was created.
pub proof fn law_finished_pass_has_done_its_work(
    setup: Setup,
    startup: bool,
    state: StateView,
    events: Seq<EventView>,
)
    requires
        state.managed.finite(),
        events.len() > 0,
        setup.last_step(startup, state, events).action is Finish,
    ensures
        exists|target: Seq<RepoView>, repos: Seq<SourceRepoView>|
            #![trigger target_was(events, target), source_was(events, repos)]
            {
                &&& target_was(events, target)
                &&& source_was(events, repos)
                &&& startup && setup.token_changed(state) ==> forall|name: Seq<char>|
                    state.managed.contains(name) && #[trigger] setup.needs_reauth(target, name)
                        ==> setup.was_reauthenticated(
                        startup,
                        state,
                        events,
                        lookup(target, name).unwrap(),
                    )
                &&& forall|i: int|
                    0 <= i < selected(setup.rules, repos).len() && !without_broken(
                        target,
                        state,
                    ).blacklist.contains((#[trigger] selected(setup.rules, repos)[i]).name) && lookup(
                        target,
                        selected(setup.rules, repos)[i].name,
                    ) is None ==> setup.was_created(
                        startup,
                        state,
                        events,
                        selected(setup.rules, repos)[i],
                    )
            },
{
    let rest = events.drop_last();
    let last = events.last();
    lemma_pass_done(setup, startup, state, rest);
    lemma_pass_on_course(setup, startup, state, rest);
    let before = setup.after(startup, state, rest);
    lemma_step_on_course(setup, startup, state, rest, before.0, before.1, last);
    lemma_was(rest, last);
    assert(rest.push(last) == events);
    let (target, repos) = choose|target: Seq<RepoView>, repos: Seq<SourceRepoView>|
        #![trigger target_was(rest, target), source_was(rest, repos)]
        target_was(rest, target) && source_was(rest, repos) && all_mirrored(
            setup,
            startup,
            state,
            rest,
            target,
            repos,
        );
    lemma_all_mirrored_stays(setup, startup, state, rest, last, target, repos);
    assert(target_was(events, target) && source_was(events, repos));
    if startup && setup.token_changed(state) {
        let names = in_order(state.managed);
        let p = |name: Seq<char>| setup.needs_reauth(target, name);
        let queue = setup.rotation_queue(target, names);
        lemma_listing_exists(state.managed);
        assert forall|name: Seq<char>|
            state.managed.contains(name) && #[trigger] setup.needs_reauth(target, name) implies setup.was_reauthenticated(
            startup,
            state,
            events,
            lookup(target, name).unwrap(),
        ) by {
            assert(names.to_set().contains(name));
            lemma_filter_keeps(names, p, name);
            let i = choose|i: int| 0 <= i < names.filter(p).len() && names.filter(p)[i] == name;
            assert(queue[i] == lookup(target, name).unwrap());
        }
    }
}

impl Setup {
    /// Whether the call was made after `k` events of a pass, and answered.
    pub open spec fn was_made_at(
        self,
        startup: bool,
        state: StateView,
        events: Seq<EventView>,
        call: CallView,
        k: int,
    ) -> bool {
        0 < k < events.len() && self.last_step(startup, state, events.take(k)).action
            == ActionView::Call(call)
    }

    /// Whether the call was made in the course of a pass, and no more than once.
    pub open spec fn was_made_once(
        self,
        startup: bool,
        state: StateView,
        events: Seq<EventView>,
        call: CallView,
    ) -> bool {
        exists|k: int|
            {
                &&& #[trigger] self.was_made_at(startup, state, events, call, k)
                &&& forall|j: int| #[trigger] self.was_made_at(startup, state, events, call, j) ==> j == k
            }
    }
}

/// Whether the sync of this name was asked for after `k` events, answered or not.
spec fn asks_at(
    setup: Setup,
    startup: bool,
    start: StateView,
    events: Seq<EventView>,
    name: Seq<char>,
    k: int,
) -> bool {
    0 < k <= events.len() && setup.last_step(startup, start, events.take(k)).action
        == ActionView::Call(CallView::TriggerSync(name))
}

/// Whether the sync of these names was asked for, once each, and of no other.
spec fn asked_exactly(
    setup: Setup,
    startup: bool,
    start: StateView,
    events: Seq<EventView>,
    names: Set<Seq<char>>,
) -> bool {
    &&& forall|name: Seq<char>| #[trigger]
        names.contains(name) ==> exists|k: int| asks_at(setup, startup, start, events, name, k)
    &&& forall|name: Seq<char>, k: int| #[trigger]
        asks_at(setup, startup, start, events, name, k) ==> names.contains(name)
    &&& forall|name: Seq<char>, j: int, k: int|
        #![trigger asks_at(setup, startup, start, events, name, j), asks_at(setup, startup, start, events, name, k)]
        asks_at(setup, startup, start, events, name, j) && asks_at(
            setup,
            startup,
            start,
            events,
            name,
            k,
        ) ==> j == k
}

/// Whether the sync of every managed mirror was asked for once, where that is set.
spec fn all_synced(
    setup: Setup,
    startup: bool,
    start: StateView,
    events: Seq<EventView>,
    target: Seq<RepoView>,
    state: StateView,
) -> bool {
    exists|names: Set<Seq<char>>|
        {
            &&& #[trigger] asked_exactly(setup, startup, start, events, names)
            &&& setup.trigger_sync ==> forall|name: Seq<char>|
                state.managed.contains(name) && is_mirror(target, name) ==> #[trigger] names.contains(name)
        }
}

/// Whether, in the course of the syncs that come last, those of `synced` were asked for
/// before, and since then those up to the one at `next`.
spec fn rest_asked(
    setup: Setup,
    startup: bool,
    start: StateView,
    events: Seq<EventView>,
    stage: StageView,
    state: StateView,
    synced: Set<Seq<char>>,
) -> bool {
    stage matches StageView::Syncing { target, names, next, .. } && {
        let since = names.take(next as int + 1).to_set();
        &&& names == setup.unsynced(target, in_order(state.managed), synced)
        &&& asked_exactly(setup, startup, start, events, synced.union(since))
    }
}

/// Which syncs a pass has asked for, by its stage.
spec fn synced_so_far(
    setup: Setup,
    startup: bool,
    start: StateView,
    events: Seq<EventView>,
    stage: StageView,
    state: StateView,
) -> bool {
    match stage {
        StageView::Mirroring { synced, .. } => asked_exactly(setup, startup, start, events, synced),
        StageView::Syncing { .. } => exists|synced: Set<Seq<char>>| #[trigger]
            rest_asked(setup, startup, start, events, stage, state, synced),
        StageView::Saving { .. } => exists|target: Seq<RepoView>, repos: Seq<SourceRepoView>|
            #![trigger target_was(events, target), source_was(events, repos)]
            {
                &&& target_was(events, target)
                &&& source_was(events, repos)
                &&& state == setup.settled(startup, start, target, repos)
                &&& all_synced(setup, startup, start, events, target, state)
            },
        StageView::Ended => true,
        _ => asked_exactly(setup, startup, start, events, Set::empty()),
    }
}

/// One more event: what it asks for is added, where it was not asked for before.
proof fn lemma_asked_push(
    setup: Setup,
    startup: bool,
    start: StateView,
    events: Seq<EventView>,
    event: EventView,
    names: Set<Seq<char>>,
)
    requires
        asked_exactly(setup, startup, start, events, names),
    ensures
        match setup.last_step(startup, start, events.push(event)).action {
            ActionView::Call(CallView::TriggerSync(name)) => !names.contains(name) ==> asked_exactly(
                setup,
                startup,
                start,
                events.push(event),
                names.insert(name),
            ),
            _ => asked_exactly(setup, startup, start, events.push(event), names),
        },
{
    let more = events.push(event);
    let last = events.len() as int + 1;
    let action = setup.last_step(startup, start, more).action;
    assert(more.take(last) == more);
    assert forall|name: Seq<char>, k: int| #[trigger]
        asks_at(setup, startup, start, more, name, k) == (asks_at(setup, startup, start, events, name, k)
            || k == last && action == ActionView::Call(CallView::TriggerSync(name))) by {
        if 0 < k <= events.len() {
            assert(more.take(k) == events.take(k));
        }
    }
    let grown = match action {
        ActionView::Call(CallView::TriggerSync(name)) => names.insert(name),
        _ => names,
    };
    assert forall|name: Seq<char>| #[trigger] grown.contains(name) implies exists|k: int|
        asks_at(setup, startup, start, more, name, k) by {
        if names.contains(name) {
            let k = choose|k: int| asks_at(setup, startup, start, events, name, k);
            assert(asks_at(setup, startup, start, more, name, k));
        } else {
            assert(asks_at(setup, startup, start, more, name, last));
        }
    }
}

/// What the turns from the one at `next` on do to the syncs asked for.
proof fn lemma_mirror_syncs(
    setup: Setup,
    target: Seq<RepoView>,
    chosen: Seq<SourceRepoView>,
    next: nat,
    now: Standing,
)
    ensures
        ({
            let out = setup.mirror_at(target, chosen, next, now);
            let queue = setup.unsynced(target, in_order(out.state.managed), now.synced);
            match out.stage {
                StageView::Mirroring { synced, .. } => match out.action {
                    ActionView::Call(CallView::TriggerSync(name)) => !now.synced.contains(name) && synced
                        == now.synced.insert(name),
                    _ => synced == now.synced,
                },
                StageView::Syncing { target: t, names, next: n, summary } => {
                    t == target && names == queue && n == 0 && out == sync_at(
                        target,
                        queue,
                        0,
                        out.state,
                        summary,
                    )
                },
                StageView::Saving { summary } => out == sync_at(target, queue, 0, out.state, summary),
                _ => false,
            }
        }),
    decreases chosen.len() - next,
{
    if next < chosen.len() {
        if let Turn::Over(after) = setup.turn_of(target, chosen, next, now) {
            lemma_mirror_syncs(setup, target, chosen, next + 1, after);
        }
    }
}

/// Going on with the sync of the mirror at `next`, after those before it.
proof fn lemma_sync_from(
    setup: Setup,
    startup: bool,
    start: StateView,
    events: Seq<EventView>,
    event: EventView,
    target: Seq<RepoView>,
    synced: Set<Seq<char>>,
    next: nat,
    out: Outcome,
    summary: Summary,
)
    requires
        out.state.managed.finite(),
        ({
            let names = setup.unsynced(target, in_order(out.state.managed), synced);
            &&& next <= names.len()
            &&& out == sync_at(target, names, next, out.state, summary)
            &&& asked_exactly(
                setup,
                startup,
                start,
                events,
                synced.union(names.take(next as int).to_set()),
            )
        }),
        setup.last_step(startup, start, events.push(event)) == out,
    ensures
        out.stage is Syncing ==> synced_so_far(
            setup,
            startup,
            start,
            events.push(event),
            out.stage,
            out.state,
        ),
        out.stage is Saving ==> all_synced(
            setup,
            startup,
            start,
            events.push(event),
            target,
            out.state,
        ),
{
    let more = events.push(event);
    let names = setup.unsynced(target, in_order(out.state.managed), synced);
    let asked = synced.union(names.take(next as int).to_set());
    lemma_unsynced(setup, target, out.state.managed, synced);
    lemma_asked_push(setup, startup, start, events, event, asked);
    if next < names.len() {
        let name = names[next as int];
        let fewer = names.take(next as int);
        if fewer.contains(name) {
            let i = choose|i: int| 0 <= i < fewer.len() && fewer[i] == name;
            assert(names[i] == names[next as int]);
        }
        assert(names.take(next as int + 1) == fewer.push(name));
        lemma_push_to_set(fewer, name);
        assert(!asked.contains(name));
        assert(asked.insert(name) =~= synced.union(names.take(next as int + 1).to_set()));
        assert(rest_asked(setup, startup, start, more, out.stage, out.state, synced));
    } else {
        assert(names.take(next as int) == names);
        assert(asked_exactly(setup, startup, start, more, asked));
        assert forall|name: Seq<char>|
            setup.trigger_sync && out.state.managed.contains(name) && is_mirror(target, name) implies #[trigger] asked.contains(
            name,
        ) by {
            if !synced.contains(name) {
                assert(names.contains(name));
            }
        }
    }
}

proof fn lemma_step_synced(
    setup: Setup,
    startup: bool,
    start: StateView,
    events: Seq<EventView>,
    stage: StageView,
    state: StateView,
    event: EventView,
)
    requires
        start.managed.finite(),
        setup.after(startup, start, events) == (stage, state),
        on_course(setup, startup, start, events, stage, state),
        synced_so_far(setup, startup, start, events, stage, state),
    ensures
        ({
            let out = setup.step(stage, state, event);
            synced_so_far(setup, startup, start, events.push(event), out.stage, out.state)
        }),
{
    let more = events.push(event);
    let out = setup.step(stage, state, event);
    assert(more.drop_last() == events);
    assert(setup.last_step(startup, start, more) == out);
    lemma_was(events, event);
    lemma_step_on_course(setup, startup, start, events, stage, state, event);
    match stage {
        StageView::Mirroring { target, selected: chosen, next, syncing, synced, summary } => {
            let now = Standing { state, synced, summary };
            let base = without_broken(target, setup.recorded(startup, start));
            let repos = choose|repos: Seq<SourceRepoView>| #[trigger]
                source_was(events, repos) && chosen == selected(setup.rules, repos);
            assert(target_was(more, target) && source_was(more, repos));
            lemma_taken_on(base, target, chosen, next as int);
            if syncing && (event is Succeeded || event is Failed) {
                lemma_mirror_on_course(setup, base, target, chosen, next + 1, now);
                lemma_mirror_asks(setup, startup, start, events, event, target, repos, next + 1, now);
            } else if !syncing && event is Succeeded {
                let created = now.creating(chosen[next as int].name);
                lemma_mirror_on_course(setup, base, target, chosen, next + 1, created);
                lemma_mirror_asks(setup, startup, start, events, event, target, repos, next + 1, created);
            }
        },
        StageView::ListingSource { target } => {
            if let EventView::SourceListed(repos) = event {
                let now = Standing::fresh(state);
                let base = without_broken(target, setup.recorded(startup, start));
                let chosen = selected(setup.rules, repos);
                assert(target_was(more, target) && source_was(more, repos));
                assert(chosen.take(0) =~= Seq::empty());
                assert(with_taken_on(base, target, chosen.take(0)).managed =~= base.managed);
                lemma_mirror_on_course(setup, base, target, chosen, 0, now);
                lemma_mirror_asks(setup, startup, start, events, event, target, repos, 0, now);
            }
        },
        StageView::Syncing { target, names, next, summary } => {
            let synced = choose|synced: Set<Seq<char>>| #[trigger]
                rest_asked(setup, startup, start, events, stage, state, synced);
            let repos = choose|repos: Seq<SourceRepoView>| #[trigger]
                source_was(events, repos) && state == setup.settled(startup, start, target, repos);
            assert(target_was(more, target) && source_was(more, repos));
            if event is Succeeded || event is Failed {
                lemma_sync_from(
                    setup,
                    startup,
                    start,
                    events,
                    event,
                    target,
                    synced,
                    next + 1,
                    out,
                    summary,
                );
            }
        },
        StageView::Saving { .. } => {},
        StageView::Ended => {},
        _ => {
            lemma_asked_push(setup, startup, start, events, event, Set::empty());
        },
    }
}

/// What the syncs asked for are after the turns from the one at `next` on.
proof fn lemma_mirror_asks(
    setup: Setup,
    startup: bool,
    start: StateView,
    events: Seq<EventView>,
    event: EventView,
    target: Seq<RepoView>,
    repos: Seq<SourceRepoView>,
    next: nat,
    now: Standing,
)
    requires
        target_was(events.push(event), target),
        source_was(events.push(event), repos),
        asked_exactly(setup, startup, start, events, now.synced),
        ({
            let out = setup.mirror_at(target, selected(setup.rules, repos), next, now);
            &&& setup.last_step(startup, start, events.push(event)) == out
            &&& out.state.managed.finite()
            &&& !(out.stage is Mirroring) ==> out.state == setup.settled(startup, start, target, repos)
        }),
    ensures
        ({
            let out = setup.mirror_at(target, selected(setup.rules, repos), next, now);
            synced_so_far(setup, startup, start, events.push(event), out.stage, out.state)
        }),
{
    let more = events.push(event);
    let chosen = selected(setup.rules, repos);
    let out = setup.mirror_at(target, chosen, next, now);
    lemma_mirror_syncs(setup, target, chosen, next, now);
    lemma_asked_push(setup, startup, start, events, event, now.synced);
    let queue = setup.unsynced(target, in_order(out.state.managed), now.synced);
    assert(now.synced.union(queue.take(0).to_set()) =~= now.synced);
    match out.stage {
        StageView::Syncing { summary, .. } => {
            lemma_sync_from(setup, startup, start, events, event, target, now.synced, 0, out, summary);
        },
        StageView::Saving { summary } => {
            lemma_sync_from(setup, startup, start, events, event, target, now.synced, 0, out, summary);
        },
        _ => {},
    }
}

proof fn lemma_pass_synced(setup: Setup, startup: bool, state: StateView, events: Seq<EventView>)
    requires
        state.managed.finite(),
    ensures
        ({
            let now = setup.after(startup, state, events);
            synced_so_far(setup, startup, state, events, now.0, now.1)
        }),
    decreases events.len(),
{
    if events.len() > 0 {
        let rest = events.drop_last();
        lemma_pass_synced(setup, startup, state, rest);
        lemma_pass_on_course(setup, startup, state, rest);
        let before = setup.after(startup, state, rest);
        lemma_step_synced(setup, startup, state, rest, before.0, before.1, events.last());
        assert(rest.push(events.last()) == events);
    }
}

/// Where that is set, a finished pass has asked for the sync of every repository that
/// it manages at its end and that the target listed as a mirror, once each.
pub proof fn law_every_managed_mirror_is_synced_once(
    setup: Setup,
    startup: bool,
    state: StateView,
    events: Seq<EventView>,
)
    requires
        state.managed.finite(),
        events.len() > 0,
        setup.last_step(startup, state, events).action is Finish,
        setup.trigger_sync,
    ensures
        exists|target: Seq<RepoView>, repos: Seq<SourceRepoView>|
            #![trigger target_was(events, target), source_was(events, repos)]
            {
                &&& target_was(events, target)
                &&& source_was(events, repos)
                &&& setup.after(startup, state, events).1 == setup.settled(startup, state, target, repos)
                &&& forall|name: Seq<char>|
                    setup.after(startup, state, events).1.managed.contains(name) && #[trigger] is_mirror(
                        target,
                        name,
                    ) ==> setup.was_made_once(startup, state, events, CallView::TriggerSync(name))
            },
{
    let rest = events.drop_last();
    let last = events.last();
    lemma_pass_synced(setup, startup, state, rest);
    lemma_pass_on_course(setup, startup, state, rest);
    let before = setup.after(startup, state, rest);
    lemma_step_on_course(setup, startup, state, rest, before.0, before.1, last);
    lemma_was(rest, last);
    assert(rest.push(last) == events);
    let (target, repos) = choose|target: Seq<RepoView>, repos: Seq<SourceRepoView>|
        #![trigger target_was(rest, target), source_was(rest, repos)]
        {
            &&& target_was(rest, target)
            &&& source_was(rest, repos)
            &&& before.1 == setup.settled(startup, state, target, repos)
            &&& all_synced(setup, startup, state, rest, target, before.1)
        };
    assert(target_was(events, target) && source_was(events, repos));
    let names = choose|names: Set<Seq<char>>|
        {
            &&& #[trigger] asked_exactly(setup, startup, state, rest, names)
            &&& setup.trigger_sync ==> forall|name: Seq<char>|
                before.1.managed.contains(name) && is_mirror(target, name) ==> #[trigger] names.contains(name)
        };
    assert forall|name: Seq<char>| before.1.managed.contains(name) && #[trigger] is_mirror(
        target,
        name,
    ) implies setup.was_made_once(startup, state, events, CallView::TriggerSync(name)) by {
        let call = CallView::TriggerSync(name);
        assert(names.contains(name));
        assert forall|j: int| #[trigger] setup.was_made_at(startup, state, events, call, j) == asks_at(
            setup,
            startup,
            state,
            rest,
            name,
            j,
        ) by {
            if 0 < j < events.len() {
                assert(events.take(j) == rest.take(j));
            }
        }
        let k = choose|k: int| asks_at(setup, startup, state, rest, name, k);
        assert(setup.was_made_at(startup, state, events, call, k));
    }
}

impl Setup {
    /// The migrations that a pass has called for, in their order.
    pub open spec fn migrations(
        self,
        startup: bool,
        state: StateView,
        events: Seq<EventView>,
    ) -> Seq<MigrationView>
        decreases events.len(),
    {
        if events.len() == 0 {
            Seq::empty()
        } else {
            let before = self.migrations(startup, state, events.drop_last());
            match self.last_step(startup, state, events).action {
                ActionView::Call(CallView::Migrate(migration)) => before.push(migration),
                _ => before,
            }
        }
    }

    /// The mirrors to be created for the chosen repositories, in their order: those of
    /// the ones that are neither blacklisted nor on the target.
    pub open spec fn missing_mirrors(
        self,
        target: Seq<RepoView>,
        blacklist: Set<Seq<char>>,
        chosen: Seq<SourceRepoView>,
    ) -> Seq<MigrationView> {
        chosen.filter(
            |r: SourceRepoView| !blacklist.contains(r.name) && lookup(target, r.name) is None,
        ).map_values(|r: SourceRepoView| self.new_mirror(r))
    }
}

/// One more repository: its mirror is added where it is missing.
proof fn lemma_missing_mirrors(
    setup: Setup,
    target: Seq<RepoView>,
    blacklist: Set<Seq<char>>,
    chosen: Seq<SourceRepoView>,
    next: int,
)
    requires
        0 <= next < chosen.len(),
    ensures
        setup.missing_mirrors(target, blacklist, chosen.take(next + 1)) == {
            let before = setup.missing_mirrors(target, blacklist, chosen.take(next));
            let repo = chosen[next];
            if !blacklist.contains(repo.name) && lookup(target, repo.name) is None {
                before.push(setup.new_mirror(repo))
            } else {
                before
            }
        },
{
    reveal(Seq::filter);
    let fewer = chosen.take(next);
    let more = chosen.take(next + 1);
    let p = |r: SourceRepoView| !blacklist.contains(r.name) && lookup(target, r.name) is None;
    assert(more.drop_last() == fewer);
    assert(more.last() == chosen[next]);
    if p(chosen[next]) {
        assert(more.filter(p) == fewer.filter(p).push(chosen[next]));
    }
    assert(setup.missing_mirrors(target, blacklist, more) =~= if p(chosen[next]) {
        setup.missing_mirrors(target, blacklist, fewer).push(setup.new_mirror(chosen[next]))
    } else {
        setup.missing_mirrors(target, blacklist, fewer)
    });
}

/// What the turns from the one at `next` on call for is what is missing next.
proof fn lemma_mirror_migrates(
    setup: Setup,
    target: Seq<RepoView>,
    chosen: Seq<SourceRepoView>,
    next: nat,
    now: Standing,
)
    requires
        next <= chosen.len(),
    ensures
        ({
            let out = setup.mirror_at(target, chosen, next, now);
            let blacklist = now.state.blacklist;
            let before = setup.missing_mirrors(target, blacklist, chosen.take(next as int));
            &&& out.state.blacklist == blacklist
            &&& match out.stage {
                StageView::Mirroring { target: t, selected: c, next: n, .. } => {
                    let after = setup.missing_mirrors(target, blacklist, chosen.take(n as int + 1));
                    &&& t == target && c == chosen
                    &&& match out.action {
                        ActionView::Call(CallView::Migrate(migration)) => after == before.push(migration),
                        _ => after == before,
                    }
                },
                StageView::Syncing { target: t, .. } => {
                    &&& t == target
                    &&& setup.missing_mirrors(target, blacklist, chosen) == before
                    &&& !(out.action matches ActionView::Call(CallView::Migrate(_)))
                },
                StageView::Saving { .. } => {
                    &&& setup.missing_mirrors(target, blacklist, chosen) == before
                    &&& !(out.action is Call)
                },
                _ => false,
            }
        }),
    decreases chosen.len() - next,
{
    if next < chosen.len() {
        lemma_missing_mirrors(setup, target, now.state.blacklist, chosen, next as int);
        if let Turn::Over(after) = setup.turn_of(target, chosen, next, now) {
            lemma_mirror_migrates(setup, target, chosen, next + 1, after);
        }
    } else {
        assert(chosen.take(next as int) == chosen);
    }
}

/// Which migrations a pass without a rotation has called for, by its stage.
spec fn migrated_so_far(
    setup: Setup,
    startup: bool,
    start: StateView,
    events: Seq<EventView>,
    stage: StageView,
) -> bool {
    let made = setup.migrations(startup, start, events);
    match stage {
        StageView::Mirroring { target, selected: chosen, next, .. } => made == setup.missing_mirrors(
            target,
            without_broken(target, start).blacklist,
            chosen.take(next as int + 1),
        ),
        StageView::Syncing { target, .. } => exists|repos: Seq<SourceRepoView>| #[trigger]
            source_was(events, repos) && all_migrated(setup, start, target, repos, made),
        StageView::Saving { .. } => exists|target: Seq<RepoView>, repos: Seq<SourceRepoView>|
            #![trigger target_was(events, target), source_was(events, repos)]
            target_was(events, target) && source_was(events, repos) && all_migrated(
                setup,
                start,
                target,
                repos,
                made,
            ),
        StageView::Ended => true,
        _ => made.len() == 0,
    }
}

spec fn all_migrated(
    setup: Setup,
    start: StateView,
    target: Seq<RepoView>,
    repos: Seq<SourceRepoView>,
    made: Seq<MigrationView>,
) -> bool {
    made == setup.missing_mirrors(
        target,
        without_broken(target, start).blacklist,
        selected(setup.rules, repos),
    )
}

proof fn lemma_step_migrated(
    setup: Setup,
    startup: bool,
    start: StateView,
    events: Seq<EventView>,
    stage: StageView,
    state: StateView,
    event: EventView,
)
    requires
        start.managed.finite(),
        !(startup && setup.token_changed(start)),
        setup.after(startup, start, events) == (stage, state),
        on_course(setup, startup, start, events, stage, state),
        migrated_so_far(setup, startup, start, events, stage),
    ensures
        migrated_so_far(
            setup,
            startup,
            start,
            events.push(event),
            setup.step(stage, state, event).stage,
        ),
{
    let more = events.push(event);
    let out = setup.step(stage, state, event);
    assert(more.drop_last() == events);
    assert(setup.last_step(startup, start, more) == out);
    lemma_was(events, event);
    match stage {
        StageView::Rotating { target, queue, next, .. } => {
            assert(setup.rotates(start, target, queue[next as int]));
        },
        StageView::ListingSource { target } => {
            if let EventView::SourceListed(repos) = event {
                let chosen = selected(setup.rules, repos);
                let blacklist = without_broken(target, start).blacklist;
                assert(target_was(more, target) && source_was(more, repos));
                lemma_mirror_migrates(setup, target, chosen, 0, Standing::fresh(state));
                reveal(Seq::filter);
                assert(chosen.take(0) =~= Seq::empty());
                assert(setup.missing_mirrors(target, blacklist, chosen.take(0)) =~= Seq::empty());
                assert(setup.migrations(startup, start, events) =~= Seq::empty());
            }
        },
        StageView::Mirroring { target, selected: chosen, next, synced, summary, .. } => {
            let now = Standing { state, synced, summary };
            let created = now.creating(chosen[next as int].name);
            let repos = choose|repos: Seq<SourceRepoView>| #[trigger]
                source_was(events, repos) && chosen == selected(setup.rules, repos);
            assert(target_was(more, target) && source_was(more, repos));
            lemma_mirror_migrates(setup, target, chosen, next + 1, now);
            lemma_mirror_migrates(setup, target, chosen, next + 1, created);
        },
        StageView::Syncing { target, .. } => {
            let made = setup.migrations(startup, start, events);
            let repos = choose|repos: Seq<SourceRepoView>| #[trigger]
                source_was(events, repos) && all_migrated(setup, start, target, repos, made);
            assert(target_was(more, target) && source_was(more, repos));
        },
        _ => {},
    }
}

proof fn lemma_pass_migrated(setup: Setup, startup: bool, state: StateView, events: Seq<EventView>)
    requires
        state.managed.finite(),
        !(startup && setup.token_changed(state)),
    ensures
        migrated_so_far(setup, startup, state, events, setup.after(startup, state, events).0),
    decreases events.len(),
{
    if events.len() > 0 {
        let rest = events.drop_last();
        lemma_pass_migrated(setup, startup, state, rest);
        lemma_pass_on_course(setup, startup, state, rest);
        let before = setup.after(startup, state, rest);
        lemma_step_migrated(setup, startup, state, rest, before.0, before.1, events.last());
        assert(rest.push(events.last()) == events);
    }
}

/// The migrations of a finished pass, where no token rotation is due: one for each
/// selected repository that is neither blacklisted nor on the target, in the order of
/// the selection, which is that of the names, and no other.
pub proof fn law_one_migration_for_each_missing_mirror(
    setup: Setup,
    startup: bool,
    state: StateView,
    events: Seq<EventView>,
)
    requires
        state.managed.finite(),
        !(startup && setup.token_changed(state)),
        events.len() > 0,
        setup.last_step(startup, state, events).action is Finish,
    ensures
        exists|target: Seq<RepoView>, repos: Seq<SourceRepoView>|
            #![trigger target_was(events, target), source_was(events, repos)]
            {
                &&& target_was(events, target)
                &&& source_was(events, repos)
                &&& sorted(selected(setup.rules, repos))
                &&& setup.migrations(startup, state, events) == setup.missing_mirrors(
                    target,
                    without_broken(target, state).blacklist,
                    selected(setup.rules, repos),
                )
            },
{
    let rest = events.drop_last();
    let last = events.last();
    lemma_pass_migrated(setup, startup, state, rest);
    lemma_pass_on_course(setup, startup, state, rest);
    let before = setup.after(startup, state, rest);
    lemma_step_on_course(setup, startup, state, rest, before.0, before.1, last);
    lemma_was(rest, last);
    assert(rest.push(last) == events);
    let made = setup.migrations(startup, state, rest);
    assert(setup.migrations(startup, state, events) == made);
    let (target, repos) = choose|target: Seq<RepoView>, repos: Seq<SourceRepoView>|
        #![trigger target_was(rest, target), source_was(rest, repos)]
        target_was(rest, target) && source_was(rest, repos) && all_migrated(
            setup,
            state,
            target,
            repos,
            made,
        );
    law_selection(setup.rules, repos);
    assert(target_was(events, target) && source_was(events, repos));
}

/// After a pass, another one over the same source makes no call but syncs, as long as
/// the managed mirrors are there and what was no mirror is none: it creates, deletes and
/// patches nothing.
pub proof fn law_second_pass_only_syncs(
    setup: Setup,
    startup: bool,
    state: StateView,
    target: Seq<RepoView>,
    later: Seq<RepoView>,
    repos: Seq<SourceRepoView>,
    events: Seq<EventView>,
)
    requires
        finite(setup.settled(startup, state, target, repos)),
        forall|name: Seq<char>|
            setup.settled(startup, state, target, repos).managed.contains(name) ==> #[trigger] is_mirror(
                later,
                name,
            ),
        forall|name: Seq<char>| #[trigger] is_plain(target, name) ==> is_plain(later, name),
        forall|t: Seq<RepoView>| #[trigger] target_was(events, t) ==> t == later,
        forall|r: Seq<SourceRepoView>| #[trigger] source_was(events, r) ==> r == repos,
        events.len() > 0,
    ensures
        setup.last_step(
            startup,
            setup.settled(startup, state, target, repos),
            events,
        ).action matches ActionView::Call(call) ==> call is TriggerSync,
{
    let once = setup.settled(startup, state, target, repos);
    let chosen = selected(setup.rules, repos);
    let out = setup.last_step(startup, once, events);
    if let ActionView::Call(call) = out.action {
        assert(!(startup && setup.token_changed(once)));
        lemma_pass_on_course(setup, startup, once, events);
        match out.stage {
            StageView::Rotating { target: t, queue, next, .. } => {
                assert(setup.rotates(once, t, queue[next as int]));
            },
            StageView::Mirroring { target: t, selected: c, next, syncing, .. } => {
                let name = c[next as int].name;
                assert(target_was(events, t));
                assert(c == chosen);
                if !syncing {
                    assert(has_name(chosen, name)) by {
                        assert(chosen[next as int].name == name);
                    }
                    if once.managed.contains(name) {
                        assert(is_mirror(later, name));
                    } else if once.blacklist.contains(name) {
                        law_blacklisted_is_left_alone(setup, startup, once, events, name);
                        assert(call.name() == name);
                    } else {
                        assert(is_plain(target, name));
                        assert(is_plain(later, name));
                    }
                }
            },
            _ => {},
        }
    }
}

/// Whether a call about this name was made in the course of a pass, answered or not.
spec fn was_named(
    setup: Setup,
    startup: bool,
    start: StateView,
    events: Seq<EventView>,
    name: Seq<char>,
) -> bool {
    exists|k: int| #[trigger] names_at(setup, startup, start, events, name, k)
}

spec fn names_at(
    setup: Setup,
    startup: bool,
    start: StateView,
    events: Seq<EventView>,
    name: Seq<char>,
    k: int,
) -> bool {
    &&& 0 < k <= events.len()
    &&& setup.last_step(startup, start, events.take(k)).action matches ActionView::Call(call)
        && call.name() == name
}

proof fn lemma_named_push(
    setup: Setup,
    startup: bool,
    start: StateView,
    events: Seq<EventView>,
    event: EventView,
    name: Seq<char>,
)
    requires
        was_named(setup, startup, start, events.push(event), name),
    ensures
        was_named(setup, startup, start, events, name) || (setup.last_step(
            startup,
            start,
            events.push(event),
        ).action matches ActionView::Call(call) && call.name() == name),
{
    let more = events.push(event);
    let k = choose|k: int| #[trigger] names_at(setup, startup, start, more, name, k);
    if k <= events.len() {
        assert(more.take(k) == events.take(k));
        assert(names_at(setup, startup, start, events, name, k));
    } else {
        assert(more.take(k) == more);
    }
}

/// What a stage knows of a name about which a call was made: it is not blacklisted, and
/// before the broken mirrors are, it is that of a mirror.
spec fn keeps_clear(stage: StageView, state: StateView, name: Seq<char>) -> bool {
    &&& !state.blacklist.contains(name)
    &&& match stage {
        StageView::Start { .. } => false,
        StageView::ListingTarget { .. } => false,
        StageView::Rotating { target, .. } => is_mirror(target, name),
        StageView::SavingToken { target } => is_mirror(target, name),
        _ => true,
    }
}

proof fn lemma_step_keeps_clear(
    setup: Setup,
    startup: bool,
    start: StateView,
    events: Seq<EventView>,
    stage: StageView,
    state: StateView,
    event: EventView,
    name: Seq<char>,
)
    requires
        start.managed.finite(),
        on_course(setup, startup, start, events, stage, state),
        sound(stage, state),
        !is_both(state, name),
        keeps_clear(stage, state, name) || (setup.step(stage, state, event).action matches ActionView::Call(
            call,
        ) && call.name() == name),
    ensures
        ({
            let out = setup.step(stage, state, event);
            keeps_clear(out.stage, out.state, name)
        }),
{
    let out = setup.step(stage, state, event);
    lemma_step_on_course(setup, startup, start, events, stage, state, event);
    lemma_step_sound(setup, stage, state, event);
    if let StageView::Rotating { target, queue, next, .. } = out.stage {
        assert(setup.rotates(start, target, queue[next as int]));
    }
    if out.action matches ActionView::Call(call) && call.name() == name {
        assert(!is_both(out.state, name));
        assert(!is_banned(out.state, name));
    } else {
        match stage {
            StageView::ListingSource { target } => {
                if let EventView::SourceListed(repos) = event {
                    let chosen = selected(setup.rules, repos);
                    lemma_mirror_migrates(setup, target, chosen, 0, Standing::fresh(state));
                }
            },
            StageView::Mirroring { target, selected: chosen, next, synced, summary, .. } => {
                let now = Standing { state, synced, summary };
                let created = now.creating(chosen[next as int].name);
                lemma_mirror_migrates(setup, target, chosen, next + 1, now);
                lemma_mirror_migrates(setup, target, chosen, next + 1, created);
            },
            _ => {},
        }
    }
}

proof fn lemma_pass_keeps_clear(
    setup: Setup,
    startup: bool,
    state: StateView,
    events: Seq<EventView>,
    name: Seq<char>,
)
    requires
        finite(state),
        !is_both(state, name),
        was_named(setup, startup, state, events, name),
    ensures
        ({
            let now = setup.after(startup, state, events);
            keeps_clear(now.0, now.1, name)
        }),
    decreases events.len(),
{
    if events.len() > 0 {
        let rest = events.drop_last();
        let last = events.last();
        let before = setup.after(startup, state, rest);
        assert(rest.push(last) == events);
        lemma_named_push(setup, startup, state, rest, last, name);
        if was_named(setup, startup, state, rest, name) {
            lemma_pass_keeps_clear(setup, startup, state, rest, name);
        }
        lemma_pass_on_course(setup, startup, state, rest);
        lemma_pass_sound(setup, startup, state, rest);
        assert(!is_both(before.1, name));
        lemma_step_keeps_clear(setup, startup, state, rest, before.0, before.1, last, name);
    }
}

/// No call of a pass, of whatever kind, names anything on the blacklist as it stands
/// after any later event, and so at the end of the pass.
pub proof fn law_calls_keep_clear_of_the_blacklist(
    setup: Setup,
    startup: bool,
    state: StateView,
    events: Seq<EventView>,
    k: int,
    call: CallView,
)
    requires
        finite(state),
        0 < k <= events.len(),
        setup.last_step(startup, state, events.take(k)).action == ActionView::Call(call),
        !is_both(state, call.name()),
    ensures
        !setup.after(startup, state, events).1.blacklist.contains(call.name()),
{
    assert(names_at(setup, startup, state, events, call.name(), k));
    lemma_pass_keeps_clear(setup, startup, state, events, call.name());
}

/// Which part of a pass a stage is, counted from the end.
pub open spec fn phase(stage: StageView) -> nat {
    match stage {
        StageView::Start { .. } => 8,
        StageView::ListingTarget { .. } => 7,
        StageView::Rotating { .. } => 6,
        StageView::SavingToken { .. } => 5,
        StageView::ListingSource { .. } => 4,
        StageView::Mirroring { .. } => 3,
        StageView::Syncing { .. } => 2,
        StageView::Saving { .. } => 1,
        StageView::Ended => 0,
    }
}

/// How much is left of that part.
pub open spec fn left(stage: StageView) -> int {
    match stage {
        StageView::Rotating { queue, next, call, .. } => 3 * (queue.len() - next) - match call {
            Reauth::Patch => 0int,
            Reauth::Delete => 1,
            Reauth::Migrate => 2,
        },
        StageView::Mirroring { selected, next, .. } => selected.len() - next,
        StageView::Syncing { names, next, .. } => names.len() - next,
        _ => 0,
    }
}

proof fn lemma_mirror_advances(
    setup: Setup,
    target: Seq<RepoView>,
    chosen: Seq<SourceRepoView>,
    next: nat,
    now: Standing,
)
    ensures
        ({
            let out = setup.mirror_at(target, chosen, next, now);
            &&& match out.stage {
                StageView::Mirroring { .. } => 0 < left(out.stage) <= chosen.len() - next,
                StageView::Syncing { .. } => 0 < left(out.stage),
                StageView::Saving { .. } => true,
                _ => false,
            }
            &&& !(out.action is Fail)
        }),
    decreases chosen.len() - next,
{
    if next < chosen.len() {
        if let Turn::Over(after) = setup.turn_of(target, chosen, next, now) {
            lemma_mirror_advances(setup, target, chosen, next + 1, after);
        }
    }
}

/// Every pass comes to an end: each event takes it further, until it is over.
pub proof fn law_every_event_advances(
    setup: Setup,
    startup: bool,
    state: StateView,
    events: Seq<EventView>,
    event: EventView,
)
    requires
        state.managed.finite(),
        !(setup.after(startup, state, events).0 is Ended),
    ensures
        ({
            let now = setup.after(startup, state, events).0;
            let later = setup.after(startup, state, events.push(event)).0;
            &&& left(now) >= 0
            &&& phase(later) < phase(now) || phase(later) == phase(now) && 0 <= left(later) < left(now)
        }),
{
    let (stage, before) = setup.after(startup, state, events);
    assert(events.push(event).drop_last() == events);
    lemma_pass_on_course(setup, startup, state, events);
    match (stage, event) {
        (StageView::Rotating { queue, next, call, .. }, _) => {},
        (StageView::ListingSource { target }, EventView::SourceListed(repos)) => {
            let now = Standing::fresh(before);
            lemma_mirror_advances(setup, target, selected(setup.rules, repos), 0, now);
        },
        (StageView::Mirroring { target, selected: chosen, next, synced, summary, .. }, _) => {
            let now = Standing { state: before, synced, summary };
            let created = now.creating(chosen[next as int].name);
            lemma_mirror_advances(setup, target, chosen, next + 1, now);
            lemma_mirror_advances(setup, target, chosen, next + 1, created);
        },
        _ => {},
    }
}

/// Whether the event lets a pass go on: the answer that was asked for, or the failure
/// of a call that may fail.
pub open spec fn lets_go_on(stage: StageView, event: EventView) -> bool {
    match stage {
        StageView::Start { .. } => event is Start,
        StageView::ListingTarget { .. } => event is TargetListed,
        StageView::Rotating { call, .. } => event is Succeeded || event is Failed && call == Reauth::Patch,
        StageView::SavingToken { .. } => event is Succeeded,
        StageView::ListingSource { .. } => event is SourceListed,
        StageView::Mirroring { syncing, .. } => event is Succeeded || event is Failed && syncing,
        StageView::Syncing { .. } => event is Succeeded || event is Failed,
        StageView::Saving { .. } => event is Succeeded,
        StageView::Ended => false,
    }
}

/// A pass fails exactly where an answer is a failure that matters, or is no answer to
/// what was asked; a PATCH or a sync that fails does not end it. What was remembered
/// up to then stays.
pub proof fn law_only_failures_that_matter_fail(
    setup: Setup,
    stage: StageView,
    state: StateView,
    event: EventView,
)
    ensures
        setup.step(stage, state, event).action is Fail <==> !lets_go_on(stage, event),
        !lets_go_on(stage, event) ==> setup.step(stage, state, event).state == state,
{
    match stage {
        StageView::ListingSource { target } => {
            if let EventView::SourceListed(repos) = event {
                let now = Standing::fresh(state);
                lemma_mirror_advances(setup, target, selected(setup.rules, repos), 0, now);
            }
        },
        StageView::Mirroring { target, selected: chosen, next, synced, summary, .. } => {
            let now = Standing { state, synced, summary };
            let created = now.creating(chosen[next as int].name);
            lemma_mirror_advances(setup, target, chosen, next + 1, now);
            lemma_mirror_advances(setup, target, chosen, next + 1, created);
        },
        _ => {},
    }
}

} // verus!
