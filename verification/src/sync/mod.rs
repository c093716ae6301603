//! The reconciliation pass: what is asked of the two forges, one call at a time, and
//! what is remembered of the answers.
use crate::config::{optional_text, Config, RotationMode};
use crate::filter::{selected, Filters, Rules};
use crate::http::{Method, Request};
use crate::names::{in_order, lemma_push_to_set, texts, NameSet};
use crate::source::{service_name, views, Source, SourceRepo, SourceRepoView};
use crate::state::{fingerprint, fingerprint_of, State, StateView};
use crate::target::{
    body_is, migration_fields, repo_views, Capabilities, FieldView, Repo, RepoView, Target,
};
use crate::text::{is_blank, same};
use vstd::prelude::*;

pub mod laws;

verus! {

/// The reconciliation engine. Holds borrowed dependencies for the run loop.
pub struct Engine<'a> {
    pub cfg: &'a Config,
    pub target: &'a Target,
    pub source: &'a Source,
    pub filters: &'a Filters,
    pub caps: &'a Capabilities,
}

/// What the decisions of a pass rest on, apart from the state and the answers.
pub ghost struct Setup {
    pub rotation_mode: RotationMode,
    pub supports_patch: bool,
    pub mirror_private: bool,
    pub trigger_sync: bool,
    pub rules: Rules,
    /// The fingerprint of the source token.
    pub fingerprint: Seq<char>,
}

/// A pull mirror to be created.
#[derive(Debug, PartialEq, Eq)]
pub struct Migration {
    pub clone_addr: String,
    pub name: String,
    pub private: bool,
    pub description: Option<String>,
}

/// What a migration holds.
pub ghost struct MigrationView {
    pub clone_addr: Seq<char>,
    pub name: Seq<char>,
    pub private: bool,
    pub description: Option<Seq<char>>,
}

impl View for Migration {
    type V = MigrationView;

    open spec fn view(&self) -> MigrationView {
        MigrationView {
            clone_addr: self.clone_addr@,
            name: self.name@,
            private: self.private,
            description: optional_text(self.description),
        }
    }
}

/// A call that changes something on the target.
#[derive(Debug, PartialEq, Eq)]
pub enum Call {
    /// Give the mirror of this name the current source token.
    PatchToken(String),
    /// Delete the mirror of this name.
    Delete(String),
    /// Create a mirror.
    Migrate(Migration),
    /// Have the mirror of this name synced at once.
    TriggerSync(String),
}

/// What a call holds.
pub ghost enum CallView {
    PatchToken(Seq<char>),
    Delete(Seq<char>),
    Migrate(MigrationView),
    TriggerSync(Seq<char>),
}

impl View for Call {
    type V = CallView;

    open spec fn view(&self) -> CallView {
        match self {
            Call::PatchToken(name) => CallView::PatchToken(name@),
            Call::Delete(name) => CallView::Delete(name@),
            Call::Migrate(migration) => CallView::Migrate(migration@),
            Call::TriggerSync(name) => CallView::TriggerSync(name@),
        }
    }
}

impl CallView {
    /// The name of the repository that the call is about.
    pub open spec fn name(self) -> Seq<char> {
        match self {
            CallView::PatchToken(name) => name,
            CallView::Delete(name) => name,
            CallView::Migrate(migration) => migration.name,
            CallView::TriggerSync(name) => name,
        }
    }
}

/// What a pass did to the mirrors.
#[derive(Debug, Clone, Copy, PartialEq, Eq, Structural)]
pub struct Summary {
    pub created: usize,
    pub adopted: usize,
    pub skipped: usize,
}

/// What a pass needs done next.
#[derive(Debug, PartialEq, Eq)]
pub enum Action {
    /// List the repositories of the target.
    ListTarget,
    /// List the repositories of the source.
    ListSource,
    /// Make this call.
    Call(Call),
    /// Write the state to its file.
    SaveState,
    /// The pass is over.
    Finish(Summary),
    /// The pass ends in failure: that of the last answer.
    Fail,
}

/// What an action holds.
pub ghost enum ActionView {
    ListTarget,
    ListSource,
    Call(CallView),
    SaveState,
    Finish(Summary),
    Fail,
}

impl View for Action {
    type V = ActionView;

    open spec fn view(&self) -> ActionView {
        match self {
            Action::ListTarget => ActionView::ListTarget,
            Action::ListSource => ActionView::ListSource,
            Action::Call(call) => ActionView::Call(call@),
            Action::SaveState => ActionView::SaveState,
            Action::Finish(summary) => ActionView::Finish(*summary),
            Action::Fail => ActionView::Fail,
        }
    }
}

/// What came of the last action.
#[derive(Debug)]
pub enum Event {
    /// Nothing was done yet.
    Start,
    /// The target has these repositories.
    TargetListed(Vec<Repo>),
    /// The source has these repositories.
    SourceListed(Vec<SourceRepo>),
    Succeeded,
    Failed,
}

/// What an event holds.
pub ghost enum EventView {
    Start,
    TargetListed(Seq<RepoView>),
    SourceListed(Seq<SourceRepoView>),
    Succeeded,
    Failed,
}

impl View for Event {
    type V = EventView;

    open spec fn view(&self) -> EventView {
        match self {
            Event::Start => EventView::Start,
            Event::TargetListed(repos) => EventView::TargetListed(repo_views(repos@)),
            Event::SourceListed(repos) => EventView::SourceListed(views(repos@)),
            Event::Succeeded => EventView::Succeeded,
            Event::Failed => EventView::Failed,
        }
    }
}

/// The call of a re-authentication that is under way.
#[derive(Debug, Clone, Copy, PartialEq, Eq, Structural)]
pub enum Reauth {
    Patch,
    Delete,
    Migrate,
}

/// Where a pass stands.
pub ghost enum StageView {
    Start { startup: bool },
    ListingTarget { startup: bool },
    /// Mirrors are being re-authenticated; the one at `next` has its turn.
    Rotating { target: Seq<RepoView>, queue: Seq<RepoView>, next: nat, call: Reauth },
    /// The fingerprint of the token is being saved.
    SavingToken { target: Seq<RepoView> },
    ListingSource { target: Seq<RepoView> },
    /// Mirrors are being created and adopted; the one at `next` has its turn, and is
    /// being synced, or else created. The syncs asked for so far are in `synced`.
    Mirroring {
        target: Seq<RepoView>,
        selected: Seq<SourceRepoView>,
        next: nat,
        syncing: bool,
        synced: Set<Seq<char>>,
        summary: Summary,
    },
    /// The managed mirrors that were not synced yet are being synced; the one at `next`
    /// has its turn.
    Syncing { target: Seq<RepoView>, names: Seq<Seq<char>>, next: nat, summary: Summary },
    Saving { summary: Summary },
    Ended,
}

/// Where a pass stands after an event, with what state, and what it needs done.
pub ghost struct Outcome {
    pub stage: StageView,
    pub state: StateView,
    pub action: ActionView,
}

/// What a pass has come to while it creates and adopts mirrors.
pub ghost struct Standing {
    pub state: StateView,
    /// The names whose sync was asked for.
    pub synced: Set<Seq<char>>,
    pub summary: Summary,
}

impl Standing {
    /// The beginning, with nothing done.
    pub open spec fn fresh(state: StateView) -> Standing {
        Standing {
            state,
            synced: Set::empty(),
            summary: Summary { created: 0, adopted: 0, skipped: 0 },
        }
    }

    /// With this name taken under management.
    pub open spec fn managing(self, name: Seq<char>) -> Standing {
        Standing {
            state: StateView { managed: self.state.managed.insert(name), ..self.state },
            ..self
        }
    }

    /// With a mirror created.
    pub open spec fn creating(self, name: Seq<char>) -> Standing {
        Standing {
            summary: Summary { created: (self.summary.created + 1) as usize, ..self.summary },
            ..self.managing(name)
        }
    }

    /// With a mirror adopted; it is counted where it was not managed before.
    pub open spec fn adopting(self, name: Seq<char>) -> Standing {
        Standing {
            summary: if self.state.managed.contains(name) {
                self.summary
            } else {
                Summary { adopted: (self.summary.adopted + 1) as usize, ..self.summary }
            },
            ..self.managing(name)
        }
    }

    /// With a repository left alone that is no mirror.
    pub open spec fn skipping(self) -> Standing {
        Standing {
            summary: Summary { skipped: (self.summary.skipped + 1) as usize, ..self.summary },
            ..self
        }
    }

    /// With a sync asked for.
    pub open spec fn syncing(self, name: Seq<char>) -> Standing {
        Standing { synced: self.synced.insert(name), ..self }
    }
}

/// What comes of the turn of a selected repository.
pub ghost enum Turn {
    /// It is over.
    Over(Standing),
    /// A call is to be made.
    Waits(Outcome),
}

/// The repository of this name on the target. Of several the last counts.
pub open spec fn lookup(target: Seq<RepoView>, name: Seq<char>) -> Option<RepoView>
    decreases target.len(),
{
    if target.len() == 0 {
        None
    } else if target.last().name == name {
        Some(target.last())
    } else {
        lookup(target.drop_last(), name)
    }
}

/// Whether there is a mirror of this name on the target.
pub open spec fn is_mirror(target: Seq<RepoView>, name: Seq<char>) -> bool {
    lookup(target, name) matches Some(repo) && repo.mirror
}

impl Setup {
    /// Whether a mirror is re-authenticated by a PATCH.
    pub open spec fn uses_patch(self) -> bool {
        self.rotation_mode == RotationMode::Auto && self.supports_patch
    }

    /// Whether something can be done to re-authenticate a mirror: a PATCH, or else
    /// creating it again from the URL that the target records.
    pub open spec fn can_reauth(self, repo: RepoView) -> bool {
        self.rotation_mode != RotationMode::Warn && (self.uses_patch() || repo.original_url.len() > 0)
    }

    /// Whether the managed name is that of a mirror to be re-authenticated.
    pub open spec fn needs_reauth(self, target: Seq<RepoView>, name: Seq<char>) -> bool {
        lookup(target, name) matches Some(repo) && repo.mirror && self.can_reauth(repo)
    }

    /// Whether the source token is another one than at the last startup.
    pub open spec fn token_changed(self, state: StateView) -> bool {
        state.token_fingerprint matches Some(old_fingerprint) && old_fingerprint != self.fingerprint
    }

    /// The managed mirrors that a new token leaves to the user, in the order of their
    /// names: nothing can be done to re-authenticate them.
    pub open spec fn left_to_user(
        self,
        target: Seq<RepoView>,
        names: Seq<Seq<char>>,
    ) -> Seq<Seq<char>> {
        names.filter(
            |name: Seq<char>| is_mirror(target, name) && !self.needs_reauth(target, name),
        )
    }

    /// The mirrors to be re-authenticated, in the order of their names.
    pub open spec fn rotation_queue(
        self,
        target: Seq<RepoView>,
        names: Seq<Seq<char>>,
    ) -> Seq<RepoView> {
        names.filter(|name: Seq<char>| self.needs_reauth(target, name)).map_values(
            |name: Seq<char>| lookup(target, name).unwrap(),
        )
    }

    /// The turn of the mirror at `next`; after the last one the fingerprint of the
    /// token is recorded and saved.
    pub open spec fn rotation_at(
        self,
        target: Seq<RepoView>,
        queue: Seq<RepoView>,
        next: nat,
        state: StateView,
    ) -> Outcome {
        if next < queue.len() {
            if self.uses_patch() {
                Outcome {
                    stage: StageView::Rotating { target, queue, next, call: Reauth::Patch },
                    state,
                    action: ActionView::Call(CallView::PatchToken(queue[next as int].name)),
                }
            } else {
                Outcome {
                    stage: StageView::Rotating { target, queue, next, call: Reauth::Delete },
                    state,
                    action: ActionView::Call(CallView::Delete(queue[next as int].name)),
                }
            }
        } else {
            self.record_token(target, state)
        }
    }

    /// Records the fingerprint of the token and saves it.
    pub open spec fn record_token(self, target: Seq<RepoView>, state: StateView) -> Outcome {
        Outcome {
            stage: StageView::SavingToken { target },
            state: StateView { token_fingerprint: Some(self.fingerprint), ..state },
            action: ActionView::SaveState,
        }
    }

    /// The token rotation check: a token seen before changes nothing, the first one
    /// is recorded, and for a new one the mirrors are re-authenticated.
    pub open spec fn rotate_if_needed(self, target: Seq<RepoView>, state: StateView) -> Outcome {
        match state.token_fingerprint {
            Some(old) => if old == self.fingerprint {
                list_source(target, state)
            } else {
                self.rotation_at(
                    target,
                    self.rotation_queue(target, in_order(state.managed)),
                    0,
                    state,
                )
            },
            None => self.record_token(target, state),
        }
    }

    /// The mirror to be created for a source repository.
    pub open spec fn new_mirror(self, repo: SourceRepoView) -> MigrationView {
        MigrationView {
            clone_addr: repo.clone_url,
            name: repo.name,
            private: self.mirror_private || repo.private,
            description: repo.description,
        }
    }

    /// The mirror with which a deleted one is replaced: from the URL that the target
    /// recorded, and as private as it was, unless every mirror is to be private.
    pub open spec fn recreated(self, repo: RepoView) -> MigrationView {
        MigrationView {
            clone_addr: repo.original_url,
            name: repo.name,
            private: self.mirror_private || repo.private,
            description: None,
        }
    }

    /// The turn of the selected repository at `next`: a blacklisted one is passed over,
    /// a missing one is created, a mirror is adopted (and synced where that is set and
    /// was not done yet), and one that is no mirror is left alone.
    pub open spec fn turn_of(
        self,
        target: Seq<RepoView>,
        selected: Seq<SourceRepoView>,
        next: nat,
        now: Standing,
    ) -> Turn {
        let repo = selected[next as int];
        if now.state.blacklist.contains(repo.name) {
            Turn::Over(now)
        } else {
            match lookup(target, repo.name) {
                None => Turn::Waits(
                    Outcome {
                        stage: StageView::Mirroring {
                            target,
                            selected,
                            next,
                            syncing: false,
                            synced: now.synced,
                            summary: now.summary,
                        },
                        state: now.state,
                        action: ActionView::Call(CallView::Migrate(self.new_mirror(repo))),
                    },
                ),
                Some(found) => if !found.mirror {
                    Turn::Over(now.skipping())
                } else if self.trigger_sync && !now.synced.contains(repo.name) {
                    let adopted = now.adopting(repo.name).syncing(repo.name);
                    Turn::Waits(
                        Outcome {
                            stage: StageView::Mirroring {
                                target,
                                selected,
                                next,
                                syncing: true,
                                synced: adopted.synced,
                                summary: adopted.summary,
                            },
                            state: adopted.state,
                            action: ActionView::Call(CallView::TriggerSync(repo.name)),
                        },
                    )
                } else {
                    Turn::Over(now.adopting(repo.name))
                },
            }
        }
    }

    /// The turns of the selected repositories from the one at `next` on, up to the first
    /// that waits for a call. After the last one the managed mirrors that were not
    /// synced yet are synced.
    pub open spec fn mirror_at(
        self,
        target: Seq<RepoView>,
        selected: Seq<SourceRepoView>,
        next: nat,
        now: Standing,
    ) -> Outcome
        decreases selected.len() - next,
    {
        if next >= selected.len() {
            let queue = self.unsynced(target, in_order(now.state.managed), now.synced);
            sync_at(target, queue, 0, now.state, now.summary)
        } else {
            match self.turn_of(target, selected, next, now) {
                Turn::Over(after) => self.mirror_at(target, selected, next + 1, after),
                Turn::Waits(outcome) => outcome,
            }
        }
    }

    /// The managed mirrors whose sync is still to be asked for, in the order of their
    /// names.
    pub open spec fn unsynced(
        self,
        target: Seq<RepoView>,
        names: Seq<Seq<char>>,
        synced: Set<Seq<char>>,
    ) -> Seq<Seq<char>> {
        if self.trigger_sync {
            names.filter(|name: Seq<char>| is_mirror(target, name) && !synced.contains(name))
        } else {
            Seq::empty()
        }
    }

    /// One event of a pass: where it then stands, with what state, and what it needs
    /// done. An event that is no answer to what was asked ends the pass.
    pub open spec fn step(self, stage: StageView, state: StateView, event: EventView) -> Outcome {
        match (stage, event) {
            (StageView::Start { startup }, EventView::Start) => Outcome {
                stage: StageView::ListingTarget { startup },
                state,
                action: ActionView::ListTarget,
            },
            (StageView::ListingTarget { startup }, EventView::TargetListed(target)) => if startup {
                self.rotate_if_needed(target, state)
            } else {
                list_source(target, state)
            },
            (StageView::Rotating { target, queue, next, call }, EventView::Succeeded) => match call {
                Reauth::Delete => Outcome {
                    stage: StageView::Rotating { target, queue, next, call: Reauth::Migrate },
                    state,
                    action: ActionView::Call(CallView::Migrate(self.recreated(queue[next as int]))),
                },
                _ => self.rotation_at(target, queue, next + 1, state),
            },
            (
                StageView::Rotating { target, queue, next, call: Reauth::Patch },
                EventView::Failed,
            ) => if queue[next as int].original_url.len() == 0 {
                self.rotation_at(target, queue, next + 1, state)
            } else {
                Outcome {
                    stage: StageView::Rotating { target, queue, next, call: Reauth::Delete },
                    state,
                    action: ActionView::Call(CallView::Delete(queue[next as int].name)),
                }
            },
            (StageView::SavingToken { target }, EventView::Succeeded) => list_source(target, state),
            (StageView::ListingSource { target }, EventView::SourceListed(repos)) => self.mirror_at(
                target,
                selected(self.rules, repos),
                0,
                Standing::fresh(state),
            ),
            (
                StageView::Mirroring { target, selected, next, syncing: false, synced, summary },
                EventView::Succeeded,
            ) => self.mirror_at(
                target,
                selected,
                next + 1,
                (Standing { state, synced, summary }).creating(selected[next as int].name),
            ),
            (
                StageView::Mirroring { target, selected, next, syncing: true, synced, summary },
                EventView::Succeeded,
            ) => self.mirror_at(target, selected, next + 1, Standing { state, synced, summary }),
            (
                StageView::Mirroring { target, selected, next, syncing: true, synced, summary },
                EventView::Failed,
            ) => self.mirror_at(target, selected, next + 1, Standing { state, synced, summary }),
            (StageView::Syncing { target, names, next, summary }, EventView::Succeeded) => sync_at(
                target,
                names,
                next + 1,
                state,
                summary,
            ),
            (StageView::Syncing { target, names, next, summary }, EventView::Failed) => sync_at(
                target,
                names,
                next + 1,
                state,
                summary,
            ),
            (StageView::Saving { summary }, EventView::Succeeded) => Outcome {
                stage: StageView::Ended,
                state,
                action: ActionView::Finish(summary),
            },
            _ => Outcome { stage: StageView::Ended, state, action: ActionView::Fail },
        }
    }
}

/// The sync of the mirror at `next`; after the last one the state is saved.
pub open spec fn sync_at(
    target: Seq<RepoView>,
    names: Seq<Seq<char>>,
    next: nat,
    state: StateView,
    summary: Summary,
) -> Outcome {
    if next < names.len() {
        Outcome {
            stage: StageView::Syncing { target, names, next, summary },
            state,
            action: ActionView::Call(CallView::TriggerSync(names[next as int])),
        }
    } else {
        Outcome { stage: StageView::Saving { summary }, state, action: ActionView::SaveState }
    }
}

/// The state once the managed mirrors that the user converted or removed are
/// blacklisted.
pub open spec fn without_broken(target: Seq<RepoView>, state: StateView) -> StateView {
    StateView {
        managed: state.managed.filter(|name: Seq<char>| is_mirror(target, name)),
        blacklist: state.blacklist.union(
            state.managed.filter(|name: Seq<char>| !is_mirror(target, name)),
        ),
        ..state
    }
}

/// Blacklists what the user broke, and asks for the source's repositories.
pub open spec fn list_source(target: Seq<RepoView>, state: StateView) -> Outcome {
    Outcome {
        stage: StageView::ListingSource { target },
        state: without_broken(target, state),
        action: ActionView::ListSource,
    }
}

/// Where a pass stands.
enum Stage {
    Start { startup: bool },
    ListingTarget { startup: bool },
    Rotating { target: Vec<Repo>, queue: Vec<Repo>, next: usize, call: Reauth },
    SavingToken { target: Vec<Repo> },
    ListingSource { target: Vec<Repo> },
    Mirroring {
        target: Vec<Repo>,
        selected: Vec<SourceRepo>,
        next: usize,
        syncing: bool,
        synced: NameSet,
        summary: Summary,
    },
    Syncing { target: Vec<Repo>, names: Vec<String>, next: usize, summary: Summary },
    Saving { summary: Summary },
    Ended,
}

/// A pass in the course of being made.
pub struct Progress {
    stage: Stage,
}

impl View for Progress {
    type V = StageView;

    closed spec fn view(&self) -> StageView {
        match self.stage {
            Stage::Start { startup } => StageView::Start { startup },
            Stage::ListingTarget { startup } => StageView::ListingTarget { startup },
            Stage::Rotating { target, queue, next, call } => StageView::Rotating {
                target: repo_views(target@),
                queue: repo_views(queue@),
                next: next as nat,
                call,
            },
            Stage::SavingToken { target } => StageView::SavingToken { target: repo_views(target@) },
            Stage::ListingSource { target } => StageView::ListingSource {
                target: repo_views(target@),
            },
            Stage::Mirroring { target, selected, next, syncing, synced, summary } => StageView::Mirroring {
                target: repo_views(target@),
                selected: views(selected@),
                next: next as nat,
                syncing,
                synced: synced@,
                summary,
            },
            Stage::Syncing { target, names, next, summary } => StageView::Syncing {
                target: repo_views(target@),
                names: texts(names@),
                next: next as nat,
                summary,
            },
            Stage::Saving { summary } => StageView::Saving { summary },
            Stage::Ended => StageView::Ended,
        }
    }
}

impl Summary {
    /// How many repositories were counted.
    pub open spec fn total(self) -> int {
        self.created + self.adopted + self.skipped
    }
}

impl Progress {
    #[verifier::type_invariant]
    closed spec fn in_bounds(self) -> bool {
        match self.stage {
            Stage::Rotating { queue, next, .. } => next < queue.len(),
            Stage::Mirroring { selected, next, syncing, summary, .. } => {
                &&& next < selected.len()
                &&& summary.total() <= next + if syncing {
                    1int
                } else {
                    0int
                }
            },
            Stage::Syncing { names, next, .. } => next < names.len(),
            _ => true,
        }
    }

    /// A pass that is about to begin. On `startup` it also runs the token-rotation
    /// check.
    pub fn new(startup: bool) -> (r: Progress)
        ensures
            r@ == (StageView::Start { startup }),
    {
        Progress { stage: Stage::Start { startup } }
    }
}

/// Whether the pass stands where `outcome` says.
pub open spec fn reaches(r: (Progress, Action), state: StateView, outcome: Outcome) -> bool {
    &&& r.0@ == outcome.stage
    &&& state == outcome.state
    &&& r.1@ == outcome.action
}

fn ended(action: Action) -> (r: (Progress, Action))
    ensures
        r.0@ == StageView::Ended,
        r.1 == action,
{
    (Progress { stage: Stage::Ended }, action)
}

fn copy_text(text: &Option<String>) -> (r: Option<String>)
    ensures
        optional_text(r) == optional_text(*text),
{
    match text {
        Some(t) => Some(t.clone()),
        None => None,
    }
}

/// What is found under a name has that name.
pub proof fn lemma_lookup_name(target: Seq<RepoView>, name: Seq<char>)
    ensures
        lookup(target, name) matches Some(repo) ==> repo.name == name,
    decreases target.len(),
{
    if target.len() > 0 {
        lemma_lookup_name(target.drop_last(), name);
    }
}

/// Finds the repository of this name. Of several the last counts.
fn find(target: &Vec<Repo>, name: &str) -> (r: Option<usize>)
    ensures
        match r {
            Some(i) => i < target@.len() && lookup(repo_views(target@), name@) == Some(target@[i as int]@),
            None => lookup(repo_views(target@), name@) is None,
        },
{
    let ghost all = repo_views(target@);
    let mut i: usize = target.len();
    assert(all.take(i as int) == all);
    while i > 0
        invariant
            all == repo_views(target@),
            i <= target@.len(),
            lookup(all.take(i as int), name@) == lookup(all, name@),
        decreases i,
    {
        i = i - 1;
        assert(all.take(i + 1).last() == target@[i as int]@);
        assert(all.take(i + 1).drop_last() == all.take(i as int));
        if same(target[i].name.as_str(), name) {
            return Some(i);
        }
    }
    None
}

fn copy_repo(repo: &Repo) -> (r: Repo)
    ensures
        r@ == repo@,
{
    Repo {
        name: repo.name.clone(),
        mirror: repo.mirror,
        original_url: repo.original_url.clone(),
        private: repo.private,
    }
}

/// Blacklists the managed mirrors that the user converted or removed, and asks for
/// the source's repositories.
fn detect_broken(target: Vec<Repo>, state: &mut State) -> (r: (Progress, Action))
    ensures
        reaches(r, final(state)@, list_source(repo_views(target@), old(state)@)),
{
    let ghost all = repo_views(target@);
    let ghost start = state@;
    let names = state.managed.to_vec();
    let ghost listing = texts(names@);
    let mut i: usize = 0;
    assert(listing.take(0).to_set() =~= Set::<Seq<char>>::empty());
    assert(state.managed@ =~= start.managed.filter(
        |n: Seq<char>| is_mirror(all, n) || !listing.take(0).to_set().contains(n),
    ));
    assert(state.blacklist@ =~= start.blacklist.union(
        listing.take(0).to_set().filter(|n: Seq<char>| !is_mirror(all, n)),
    ));
    while i < names.len()
        invariant
            i <= names@.len(),
            all == repo_views(target@),
            listing == texts(names@),
            state.managed@ == start.managed.filter(
                |n: Seq<char>| is_mirror(all, n) || !listing.take(i as int).to_set().contains(n),
            ),
            state.blacklist@ == start.blacklist.union(
                listing.take(i as int).to_set().filter(|n: Seq<char>| !is_mirror(all, n)),
            ),
            optional_text(state.token_fingerprint) == start.token_fingerprint,
        decreases names@.len() - i,
    {
        let name = &names[i];
        proof {
            assert(listing[i as int] == name@);
            assert(listing.take(i + 1) == listing.take(i as int).push(name@));
            lemma_push_to_set(listing.take(i as int), name@);
        }
        let healthy = match find(&target, name.as_str()) {
            Some(at) => target[at].mirror,
            None => false,
        };
        if !healthy {
            let _ = state.blacklist.insert(name.clone());
            let _ = state.managed.remove(name.as_str());
        }
        i = i + 1;
        assert(state.managed@ =~= start.managed.filter(
            |n: Seq<char>| is_mirror(all, n) || !listing.take(i as int).to_set().contains(n),
        ));
        assert(state.blacklist@ =~= start.blacklist.union(
            listing.take(i as int).to_set().filter(|n: Seq<char>| !is_mirror(all, n)),
        ));
    }
    assert(listing.take(i as int) == listing);
    assert(state.managed@ =~= without_broken(all, start).managed);
    assert(state.blacklist@ =~= without_broken(all, start).blacklist);
    (Progress { stage: Stage::ListingSource { target } }, Action::ListSource)
}

/// Goes on with the sync of the mirror at `next`.
fn sync_from(target: Vec<Repo>, names: Vec<String>, next: usize, summary: Summary) -> (r: (Progress, Action))
    ensures
        forall|state: StateView|
            reaches(
                r,
                state,
                #[trigger] sync_at(repo_views(target@), texts(names@), next as nat, state, summary),
            ),
{
    if next < names.len() {
        let name = names[next].clone();
        (
            Progress { stage: Stage::Syncing { target, names, next, summary } },
            Action::Call(Call::TriggerSync(name)),
        )
    } else {
        (Progress { stage: Stage::Saving { summary } }, Action::SaveState)
    }
}

impl<'a> Engine<'a> {
    /// What the decisions rest on, given the fingerprint of the source token.
    pub open spec fn setup_with(self, current: Seq<char>) -> Setup {
        Setup {
            rotation_mode: self.cfg.rotation_mode,
            supports_patch: self.caps.supports_pull_mirror_patch,
            mirror_private: self.cfg.mirror_private,
            trigger_sync: self.cfg.trigger_sync,
            rules: self.filters.rules(),
            fingerprint: current,
        }
    }

    /// What the decisions rest on.
    pub open spec fn setup(self) -> Setup {
        self.setup_with(fingerprint_of(self.cfg.source_token@))
    }

    fn uses_patch(&self) -> (r: bool)
        ensures
            forall|current: Seq<char>| r == #[trigger] self.setup_with(current).uses_patch(),
    {
        match self.cfg.rotation_mode {
            RotationMode::Auto => self.caps.supports_pull_mirror_patch,
            _ => false,
        }
    }

    fn can_reauth(&self, repo: &Repo) -> (r: bool)
        ensures
            forall|current: Seq<char>| r == #[trigger] self.setup_with(current).can_reauth(repo@),
    {
        match self.cfg.rotation_mode {
            RotationMode::Warn => false,
            _ => self.uses_patch() || !is_blank(repo.original_url.as_str()),
        }
    }

    /// Picks the managed mirrors that are to be re-authenticated.
    fn mirrors_to_rotate(&self, current: &str, target: &Vec<Repo>, names: &Vec<String>) -> (r: Vec<Repo>)
        ensures
            repo_views(r@) == self.setup_with(current@).rotation_queue(
                repo_views(target@),
                texts(names@),
            ),
    {
        let ghost setup = self.setup_with(current@);
        let ghost all = repo_views(target@);
        let ghost listing = texts(names@);
        let mut queue: Vec<Repo> = Vec::new();
        let mut i: usize = 0;
        proof {
            reveal(Seq::filter);
            assert(listing.take(0) =~= Seq::empty());
            assert(repo_views(queue@) =~= setup.rotation_queue(all, listing.take(0)));
        }
        while i < names.len()
            invariant
                i <= names@.len(),
                setup == self.setup_with(current@),
                all == repo_views(target@),
                listing == texts(names@),
                repo_views(queue@) == setup.rotation_queue(all, listing.take(i as int)),
            decreases names@.len() - i,
        {
            let ghost start = repo_views(queue@);
            let ghost rest = listing.take(i as int);
            proof {
                reveal(Seq::filter);
                assert(listing[i as int] == names@[i as int]@);
                assert(listing.take(i + 1).drop_last() == rest);
                assert(listing.take(i + 1).last() == listing[i as int]);
            }
            match find(target, names[i].as_str()) {
                Some(at) => {
                    if target[at].mirror && self.can_reauth(&target[at]) {
                        queue.push(copy_repo(&target[at]));
                        assert(repo_views(queue@) =~= start.push(target@[at as int]@));
                        assert(repo_views(queue@) =~= setup.rotation_queue(all, listing.take(i + 1)));
                    } else {
                        assert(!setup.needs_reauth(all, listing[i as int]));
                        assert(repo_views(queue@) =~= setup.rotation_queue(all, listing.take(i + 1)));
                    }
                },
                None => {
                    assert(repo_views(queue@) =~= setup.rotation_queue(all, listing.take(i + 1)));
                },
            }
            i = i + 1;
        }
        assert(listing.take(i as int) == listing);
        queue
    }

    /// Tests whether the source token is another one than at the last startup.
    fn token_changed(&self, current: &str, state: &State) -> (r: bool)
        ensures
            r == self.setup_with(current@).token_changed(state@),
    {
        match &state.token_fingerprint {
            Some(old_fingerprint) => !same(old_fingerprint.as_str(), current),
            None => false,
        }
    }

    /// The managed mirrors that the user has to re-authenticate by hand once the
    /// target is listed on startup: all of them where the mode only warns, else those
    /// of which the target records no URL and which it cannot patch.
    pub fn left_to_user(&self, target: &Vec<Repo>, state: &State) -> (r: Vec<String>)
        ensures
            texts(r@) == if self.setup().token_changed(state@) {
                self.setup().left_to_user(repo_views(target@), in_order(state@.managed))
            } else {
                Seq::empty()
            },
    {
        let mut left: Vec<String> = Vec::new();
        assert(texts(left@) =~= Seq::empty());
        let current = fingerprint(self.cfg.source_token.as_str());
        if !self.token_changed(current.as_str(), state) {
            return left;
        }
        let names = state.managed.to_vec();
        let ghost setup = self.setup();
        let ghost all = repo_views(target@);
        let ghost listing = texts(names@);
        let mut i: usize = 0;
        proof {
            reveal(Seq::filter);
            assert(listing.take(0) =~= Seq::empty());
        }
        while i < names.len()
            invariant
                i <= names@.len(),
                setup == self.setup(),
                all == repo_views(target@),
                listing == texts(names@),
                texts(left@) == setup.left_to_user(all, listing.take(i as int)),
            decreases names@.len() - i,
        {
            let ghost start = texts(left@);
            proof {
                reveal(Seq::filter);
                assert(listing[i as int] == names@[i as int]@);
                assert(listing.take(i + 1).drop_last() == listing.take(i as int));
                assert(listing.take(i + 1).last() == listing[i as int]);
            }
            match find(target, names[i].as_str()) {
                Some(at) => {
                    if target[at].mirror && !self.can_reauth(&target[at]) {
                        left.push(names[i].clone());
                        assert(texts(left@) =~= start.push(listing[i as int]));
                    }
                },
                None => {},
            }
            i = i + 1;
        }
        assert(listing.take(i as int) == listing);
        left
    }

    /// Records the fingerprint of the token and saves it.
    fn record_token(&self, current: &str, target: Vec<Repo>, state: &mut State) -> (r: (Progress, Action))
        ensures
            reaches(
                r,
                final(state)@,
                self.setup_with(current@).record_token(repo_views(target@), old(state)@),
            ),
    {
        state.token_fingerprint = Some(current.to_owned());
        (Progress { stage: Stage::SavingToken { target } }, Action::SaveState)
    }

    /// Goes on with the re-authentication of the mirror at `next`.
    fn rotate_from(
        &self,
        current: &str,
        target: Vec<Repo>,
        queue: Vec<Repo>,
        next: usize,
        state: &mut State,
    ) -> (r: (Progress, Action))
        ensures
            reaches(
                r,
                final(state)@,
                self.setup_with(current@).rotation_at(
                    repo_views(target@),
                    repo_views(queue@),
                    next as nat,
                    old(state)@,
                ),
            ),
    {
        if next < queue.len() {
            if self.uses_patch() {
                let name = queue[next].name.clone();
                (
                    Progress { stage: Stage::Rotating { target, queue, next, call: Reauth::Patch } },
                    Action::Call(Call::PatchToken(name)),
                )
            } else {
                self.recreate(target, queue, next)
            }
        } else {
            self.record_token(current, target, state)
        }
    }

    /// Re-authenticate a mirror by deleting it and migrating it again with the
    /// current token, reusing the source URL the target still records.
    fn recreate(&self, target: Vec<Repo>, queue: Vec<Repo>, next: usize) -> (r: (Progress, Action))
        requires
            next < queue@.len(),
        ensures
            r.0@ == (StageView::Rotating {
                target: repo_views(target@),
                queue: repo_views(queue@),
                next: next as nat,
                call: Reauth::Delete,
            }),
            r.1@ == ActionView::Call(CallView::Delete(queue@[next as int]@.name)),
    {
        let name = queue[next].name.clone();
        (
            Progress { stage: Stage::Rotating { target, queue, next, call: Reauth::Delete } },
            Action::Call(Call::Delete(name)),
        )
    }

    /// If the source token changed since last run, re-authenticate every managed
    /// mirror using the configured rotation strategy.
    fn rotate_if_needed(
        &self,
        current: &str,
        target: Vec<Repo>,
        state: &mut State,
    ) -> (r: (Progress, Action))
        ensures
            reaches(
                r,
                final(state)@,
                self.setup_with(current@).rotate_if_needed(repo_views(target@), old(state)@),
            ),
    {
        if state.token_fingerprint.is_none() {
            return self.record_token(current, target, state);
        }
        if !self.token_changed(current, state) {
            return detect_broken(target, state);
        }
        let names = state.managed.to_vec();
        let queue = self.mirrors_to_rotate(current, &target, &names);
        self.rotate_from(current, target, queue, 0, state)
    }

    /// Picks the managed mirrors whose sync is still to be asked for.
    fn mirrors_to_sync(
        &self,
        current: &str,
        target: &Vec<Repo>,
        names: &Vec<String>,
        synced: &NameSet,
    ) -> (r: Vec<String>)
        ensures
            texts(r@) == self.setup_with(current@).unsynced(
                repo_views(target@),
                texts(names@),
                synced@,
            ),
    {
        let ghost setup = self.setup_with(current@);
        let ghost all = repo_views(target@);
        let ghost listing = texts(names@);
        let mut queue: Vec<String> = Vec::new();
        assert(texts(queue@) =~= Seq::empty());
        if !self.cfg.trigger_sync {
            return queue;
        }
        let mut i: usize = 0;
        proof {
            reveal(Seq::filter);
            assert(listing.take(0) =~= Seq::empty());
        }
        while i < names.len()
            invariant
                i <= names@.len(),
                setup == self.setup_with(current@),
                setup.trigger_sync,
                all == repo_views(target@),
                listing == texts(names@),
                texts(queue@) == setup.unsynced(all, listing.take(i as int), synced@),
            decreases names@.len() - i,
        {
            let ghost start = texts(queue@);
            proof {
                reveal(Seq::filter);
                assert(listing[i as int] == names@[i as int]@);
                assert(listing.take(i + 1).drop_last() == listing.take(i as int));
                assert(listing.take(i + 1).last() == listing[i as int]);
            }
            match find(target, names[i].as_str()) {
                Some(at) => {
                    if target[at].mirror && !synced.contains(names[i].as_str()) {
                        queue.push(names[i].clone());
                        assert(texts(queue@) =~= start.push(listing[i as int]));
                    }
                },
                None => {},
            }
            i = i + 1;
        }
        assert(listing.take(i as int) == listing);
        queue
    }

    /// Goes on with the selected repository at `next`: creates a missing mirror, or
    /// adopts one that is there.
    fn mirror_from(
        &self,
        current: &str,
        target: Vec<Repo>,
        selected: Vec<SourceRepo>,
        next: usize,
        state: &mut State,
        synced: NameSet,
        summary: Summary,
    ) -> (r: (Progress, Action))
        requires
            next <= selected@.len(),
            summary.total() <= next,
        ensures
            reaches(
                r,
                final(state)@,
                self.setup_with(current@).mirror_at(
                    repo_views(target@),
                    views(selected@),
                    next as nat,
                    Standing { state: old(state)@, synced: synced@, summary },
                ),
            ),
    {
        let ghost setup = self.setup_with(current@);
        let ghost all = repo_views(target@);
        let ghost chosen = views(selected@);
        let ghost first = Standing { state: state@, synced: synced@, summary };
        let ghost outcome = setup.mirror_at(all, chosen, next as nat, first);
        let mut asked = synced;
        let mut at: usize = next;
        let mut count = summary;
        while at < selected.len()
            invariant
                setup == self.setup_with(current@),
                all == repo_views(target@),
                chosen == views(selected@),
                at <= selected@.len(),
                count.total() <= at,
                first == (Standing { state: old(state)@, synced: synced@, summary }),
                outcome == setup.mirror_at(all, chosen, next as nat, first),
                outcome == setup.mirror_at(
                    all,
                    chosen,
                    at as nat,
                    (Standing { state: state@, synced: asked@, summary: count }),
                ),
            decreases selected@.len() - at,
        {
            let repo = &selected[at];
            assert(repo@ == chosen[at as int]);
            let ghost now = Standing { state: state@, synced: asked@, summary: count };
            if !state.blacklist.contains(repo.name.as_str()) {
                match find(&target, repo.name.as_str()) {
                    None => {
                        let migration = Migration {
                            clone_addr: repo.clone_url.clone(),
                            name: repo.name.clone(),
                            private: self.cfg.mirror_private || repo.private,
                            description: copy_text(&repo.description),
                        };
                        let stage = Stage::Mirroring {
                            target,
                            selected,
                            next: at,
                            syncing: false,
                            synced: asked,
                            summary: count,
                        };
                        return (Progress { stage }, Action::Call(Call::Migrate(migration)));
                    },
                    Some(found) => {
                        if target[found].mirror {
                            if state.managed.insert(repo.name.clone()) {
                                count.adopted = count.adopted + 1;
                            }
                            if self.cfg.trigger_sync && asked.insert(repo.name.clone()) {
                                let name = repo.name.clone();
                                let stage = Stage::Mirroring {
                                    target,
                                    selected,
                                    next: at,
                                    syncing: true,
                                    synced: asked,
                                    summary: count,
                                };
                                return (Progress { stage }, Action::Call(Call::TriggerSync(name)));
                            }
                            assert(asked@ =~= now.synced);
                            assert((Standing { state: state@, synced: asked@, summary: count })
                                == now.adopting(repo@.name));
                        } else {
                            count.skipped = count.skipped + 1;
                        }
                    },
                }
            }
            at = at + 1;
        }
        let names = state.managed.to_vec();
        let queue = self.mirrors_to_sync(current, &target, &names, &asked);
        sync_from(target, queue, 0, count)
    }

    /// One step of a full pass: takes in what came of the last action, and says what
    /// is to be done next. A pass begins with `Progress::new` and `Event::Start`, and
    /// is over with `Finish` or `Fail`. What was remembered before a failure stays.
    pub fn reconcile(&self, progress: Progress, state: &mut State, event: Event) -> (r: (Progress, Action))
        ensures
            reaches(r, final(state)@, self.setup().step(progress@, old(state)@, event@)),
    {
        let current = fingerprint(self.cfg.source_token.as_str());
        self.advance(current.as_str(), progress, state, event)
    }

    /// One step of a full pass, given the fingerprint of the source token.
    pub fn advance(
        &self,
        current: &str,
        progress: Progress,
        state: &mut State,
        event: Event,
    ) -> (r: (Progress, Action))
        ensures
            reaches(
                r,
                final(state)@,
                self.setup_with(current@).step(progress@, old(state)@, event@),
            ),
    {
        proof {
            use_type_invariant(&progress);
        }
        let Progress { stage } = progress;
        match (stage, event) {
            (Stage::Start { startup }, Event::Start) => (
                Progress { stage: Stage::ListingTarget { startup } },
                Action::ListTarget,
            ),
            (Stage::ListingTarget { startup }, Event::TargetListed(target)) => {
                if startup {
                    self.rotate_if_needed(current, target, state)
                } else {
                    detect_broken(target, state)
                }
            },
            (Stage::Rotating { target, queue, next, call }, Event::Succeeded) => match call {
                Reauth::Delete => {
                    let migration = Migration {
                        clone_addr: queue[next].original_url.clone(),
                        name: queue[next].name.clone(),
                        private: self.cfg.mirror_private || queue[next].private,
                        description: None,
                    };
                    (
                        Progress {
                            stage: Stage::Rotating { target, queue, next, call: Reauth::Migrate },
                        },
                        Action::Call(Call::Migrate(migration)),
                    )
                },
                _ => self.rotate_from(current, target, queue, next + 1, state),
            },
            (Stage::Rotating { target, queue, next, call: Reauth::Patch }, Event::Failed) => {
                if is_blank(queue[next].original_url.as_str()) {
                    self.rotate_from(current, target, queue, next + 1, state)
                } else {
                    self.recreate(target, queue, next)
                }
            },
            (Stage::SavingToken { target }, Event::Succeeded) => detect_broken(target, state),
            (Stage::ListingSource { target }, Event::SourceListed(repos)) => {
                let selected = self.filters.apply(repos);
                let summary = Summary { created: 0, adopted: 0, skipped: 0 };
                self.mirror_from(current, target, selected, 0, state, NameSet::new(), summary)
            },
            (
                Stage::Mirroring { target, selected, next, syncing: false, synced, summary },
                Event::Succeeded,
            ) => {
                let _ = state.managed.insert(selected[next].name.clone());
                let summary = Summary { created: summary.created + 1, ..summary };
                self.mirror_from(current, target, selected, next + 1, state, synced, summary)
            },
            (
                Stage::Mirroring { target, selected, next, syncing: true, synced, summary },
                Event::Succeeded,
            ) => self.mirror_from(current, target, selected, next + 1, state, synced, summary),
            (
                Stage::Mirroring { target, selected, next, syncing: true, synced, summary },
                Event::Failed,
            ) => self.mirror_from(current, target, selected, next + 1, state, synced, summary),
            (Stage::Syncing { target, names, next, summary }, Event::Succeeded) => {
                sync_from(target, names, next + 1, summary)
            },
            (Stage::Syncing { target, names, next, summary }, Event::Failed) => {
                sync_from(target, names, next + 1, summary)
            },
            (Stage::Saving { summary }, Event::Succeeded) => ended(Action::Finish(summary)),
            _ => ended(Action::Fail),
        }
    }

    /// Whether `r` is the request by which the call is made on the target.
    pub open spec fn makes(self, call: CallView, r: Request) -> bool {
        match call {
            CallView::PatchToken(name) => {
                &&& self.target.asks(r, Method::Patch, self.target.repo_url(name), true)
                &&& body_is(
                    r.body,
                    seq![("mirror_token"@, FieldView::Text(self.cfg.source_token@))],
                )
            },
            CallView::Delete(name) => {
                &&& self.target.asks(r, Method::Delete, self.target.repo_url(name), true)
                &&& r.body is None
            },
            CallView::Migrate(migration) => {
                &&& self.target.asks(r, Method::Post, self.target.api@ + "/repos/migrate"@, true)
                &&& body_is(
                    r.body,
                    migration_fields(
                        migration.clone_addr,
                        migration.name,
                        self.target.owner@,
                        service_name(self.source.kind),
                        self.cfg.source_token@,
                        self.cfg.mirror_interval@,
                        migration.private,
                        migration.description,
                    ),
                )
            },
            CallView::TriggerSync(name) => {
                &&& self.target.asks(
                    r,
                    Method::Post,
                    self.target.repo_url(name) + "/mirror-sync"@,
                    true,
                )
                &&& r.body is None
            },
        }
    }

    /// The request by which a call is made on the target.
    pub fn request(&self, call: &Call) -> (r: Request)
        ensures
            self.makes(call@, r),
    {
        match call {
            Call::PatchToken(name) => self.target.patch_mirror_token(
                name.as_str(),
                self.cfg.source_token.as_str(),
            ),
            Call::Delete(name) => self.target.delete(name.as_str()),
            Call::Migrate(migration) => self.target.migrate(
                migration.clone_addr.as_str(),
                migration.name.as_str(),
                self.source.service(),
                self.cfg.source_token.as_str(),
                self.cfg.mirror_interval.as_str(),
                migration.private,
                &migration.description,
            ),
            Call::TriggerSync(name) => self.target.trigger_sync(name.as_str()),
        }
    }
}

/// Tests whether a token rotation would delete and recreate mirrors for want of
/// support on the target, though the mode would patch them.
pub fn rotation_falls_back(mode: RotationMode, caps: &Capabilities) -> (r: bool)
    ensures
        r == (mode == RotationMode::Auto && !caps.supports_pull_mirror_patch),
{
    match mode {
        RotationMode::Auto => !caps.supports_pull_mirror_patch,
        _ => false,
    }
}

} // verus!
