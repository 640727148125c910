//! Preparing the hooks of a project.
//!
//! Storing repositories and reading their manifests is somebody else's work, and it ends in
//! whatever order it ends. A [`Preparation`] says what work there is, takes in how each piece
//! of it ended, and hands out the hooks when all is done:
//!
//! 1. all remote repositories are stored, side by side;
//! 2. the hooks that ask for additional dependencies get repositories of their own, again
//!    side by side;
//! 3. the local hooks follow one by one, in the order of the configuration.

use vstd::prelude::*;

use crate::config;
use crate::config::{
    ConfigRemoteHookView, ConfigRemoteRepo, ConfigRepo, ConfigRepoView, ConfigWire,
    ConfigWireView, Manifest, ManifestHook, ManifestHookView,
};
use crate::error::{Error, ErrorView};
use crate::hook;
use crate::hook::{Hook, HookView, Repo, RepoView};
use crate::language;
use crate::seqs;

verus! {

/// What a preparation waits for.
#[derive(Debug, Clone, Copy, PartialEq, Eq, Structural)]
pub enum Phase {
    /// The remote repositories.
    Repos,
    /// The repositories of the hooks with additional dependencies.
    Environments,
    /// The environment of the next local hook.
    Locals,
    /// Nothing more.
    Done,
}

/// A hook that waits for a repository of its own, with its additional dependencies.
#[derive(Debug)]
pub struct Deferred {
    /// The number by which the outcome is reported.
    pub task: usize,
    /// The position of the hook's repository in the configuration.
    pub repo: usize,
    pub hook: ManifestHook,
}

/// What a [`Deferred`] holds.
pub struct DeferredView {
    pub task: int,
    pub repo: int,
    pub hook: ManifestHookView,
}

impl View for Deferred {
    type V = DeferredView;

    open spec fn view(&self) -> DeferredView {
        DeferredView { task: self.task as int, repo: self.repo as int, hook: self.hook@ }
    }
}

impl DeepView for Deferred {
    type V = DeferredView;

    open spec fn deep_view(&self) -> DeferredView {
        self@
    }
}

impl Clone for Deferred {
    fn clone(&self) -> (copy: Self)
        ensures
            copy@ == self@,
    {
        Deferred { task: self.task, repo: self.repo, hook: self.hook.clone() }
    }
}

/// A remote repository that was stored.
#[derive(Debug)]
pub struct Stored {
    /// Where it was stored.
    pub path: String,
    /// What was read of its manifest, or why it could not be read.
    pub manifest: Result<Manifest, String>,
}

/// What a [`Stored`] holds.
pub struct StoredView {
    pub path: Seq<char>,
    pub manifest: Result<Seq<ManifestHookView>, Seq<char>>,
}

impl View for Stored {
    type V = StoredView;

    open spec fn view(&self) -> StoredView {
        StoredView { path: self.path@, manifest: hook::manifest_hooks(self.manifest) }
    }
}

/// How a piece of work ended. An error is the store's description of it.
#[derive(Debug)]
pub enum Event {
    /// The remote repository at a position of the configuration was stored.
    Repo { repo: usize, stored: Result<Stored, String> },
    /// The repository of a deferred hook was stored at a path.
    Environment { task: usize, path: Result<String, String> },
    /// The environment of a local hook was stored at a path.
    Local { path: Result<String, String> },
}

/// What an [`Event`] says.
pub enum EventView {
    Repo { repo: int, stored: Result<StoredView, Seq<char>> },
    Environment { task: int, path: Result<Seq<char>, Seq<char>> },
    Local { path: Result<Seq<char>, Seq<char>> },
}

impl View for Event {
    type V = EventView;

    open spec fn view(&self) -> EventView {
        match self {
            Event::Repo { repo, stored } => EventView::Repo {
                repo: *repo as int,
                stored: hook::outcome(*stored),
            },
            Event::Environment { task, path } => EventView::Environment {
                task: *task as int,
                path: hook::outcome(*path),
            },
            Event::Local { path } => EventView::Local { path: hook::outcome(*path) },
        }
    }
}

/// What is to be done next.
#[derive(Debug)]
pub enum Action {
    /// Store the remote repositories at these positions of the configuration, and read their
    /// manifests.
    PrepareRepos(Vec<usize>),
    /// Wait for the next outcome.
    Await,
    /// Store the repositories of these hooks, with their additional dependencies.
    PrepareEnvironments(Vec<Deferred>),
    /// Store the environment of this local hook.
    PrepareLocal(ManifestHook),
    /// The hooks are ready.
    Finish(Vec<Hook>),
    /// The hooks cannot be prepared.
    Fail(Error),
}

/// What an [`Action`] says.
pub enum ActionView {
    PrepareRepos(Seq<int>),
    Await,
    PrepareEnvironments(Seq<DeferredView>),
    PrepareLocal(ManifestHookView),
    Finish(Seq<HookView>),
    Fail(ErrorView),
}

/// Positions as integers.
pub open spec fn positions(list: Seq<usize>) -> Seq<int> {
    list.map_values(|i: usize| i as int)
}

impl View for Action {
    type V = ActionView;

    open spec fn view(&self) -> ActionView {
        match self {
            Action::PrepareRepos(repos) => ActionView::PrepareRepos(positions(repos@)),
            Action::Await => ActionView::Await,
            Action::PrepareEnvironments(hooks) => ActionView::PrepareEnvironments(
                hooks.deep_view(),
            ),
            Action::PrepareLocal(hook) => ActionView::PrepareLocal(hook@),
            Action::Finish(hooks) => ActionView::Finish(hooks.deep_view()),
            Action::Fail(error) => ActionView::Fail(error@),
        }
    }
}

/// The preparation of a project's hooks, as far as it has come.
#[derive(Debug)]
pub struct Preparation<'a> {
    config: &'a ConfigWire,
    phase: Phase,
    repos: Vec<usize>,
    deferred: Vec<Deferred>,
    locals: Vec<&'a ManifestHook>,
    next_local: usize,
    hooks: Vec<Hook>,
}

/// The state of a [`Preparation`].
pub struct PreparationView {
    /// The project's configuration.
    pub config: ConfigWireView,
    pub phase: Phase,
    /// The positions of the remote repositories that are not stored yet.
    pub repos: Seq<int>,
    /// The hooks that wait for a repository of their own.
    pub deferred: Seq<DeferredView>,
    /// The local hooks that are not ready yet.
    pub locals: Seq<ManifestHookView>,
    /// The hooks that are ready.
    pub hooks: Seq<HookView>,
}

impl<'a> View for Preparation<'a> {
    type V = PreparationView;

    closed spec fn view(&self) -> PreparationView {
        PreparationView {
            config: self.config@,
            phase: self.phase,
            repos: positions(self.repos@),
            deferred: self.deferred.deep_view(),
            locals: self.locals.deep_view().skip(self.next_local as int),
            hooks: self.hooks.deep_view(),
        }
    }
}

/// The positions of the remote repositories among `repos`, in ascending order.
pub open spec fn remote_positions(repos: Seq<ConfigRepoView>) -> Seq<int>
    decreases repos.len(),
{
    if repos.len() == 0 {
        Seq::empty()
    } else {
        let before = remote_positions(repos.drop_last());
        if repos.last() is Remote {
            before.push(repos.len() - 1)
        } else {
            before
        }
    }
}

/// The hooks of all local repositories among `repos`, in their order.
pub open spec fn local_hooks(repos: Seq<ConfigRepoView>) -> Seq<ManifestHookView>
    decreases repos.len(),
{
    if repos.len() == 0 {
        Seq::empty()
    } else {
        let before = local_hooks(repos.drop_last());
        match repos.last() {
            ConfigRepoView::Local(hooks) => before + hooks,
            _ => before,
        }
    }
}

/// The first id among `wanted` that no hook of `offered` has.
pub open spec fn first_missing(
    offered: Seq<ManifestHookView>,
    wanted: Seq<ConfigRemoteHookView>,
) -> Option<Seq<char>>
    decreases wanted.len(),
{
    if wanted.len() == 0 {
        None
    } else if hook::first_with_id(offered, wanted[0].id) is None {
        Some(wanted[0].id)
    } else {
        first_missing(offered, wanted.drop_first())
    }
}

/// What a project gets when it asks for `wanted`: the hook of that id that is offered, with
/// what the project says otherwise of it, and with the project's defaults.
pub open spec fn resolved_hook(
    offered: Seq<ManifestHookView>,
    wanted: ConfigRemoteHookView,
    config: ConfigWireView,
) -> ManifestHookView {
    config::filled(
        config::updated(hook::first_with_id(offered, wanted.id).unwrap(), wanted),
        config,
    )
}

/// What a project gets for each of the hooks that it asks for.
pub open spec fn resolved_hooks(
    offered: Seq<ManifestHookView>,
    wanted: Seq<ConfigRemoteHookView>,
    config: ConfigWireView,
) -> Seq<ManifestHookView> {
    wanted.map_values(|w: ConfigRemoteHookView| resolved_hook(offered, w, config))
}

/// Whether a hook asks for additional dependencies, be it for none.
pub open spec fn has_dependencies(hook: ManifestHookView) -> bool {
    hook.additional_dependencies is Some
}

/// A hook for which `path` was stored: it has a path only if it needs an environment.
pub open spec fn placed(hook: ManifestHookView, path: Seq<char>) -> HookView {
    HookView {
        config: hook,
        path: if language::needs_environment(hook.language) {
            Some(path)
        } else {
            None
        },
    }
}

/// Those of `resolved` that have no additional dependencies, with the path at which their
/// repository is stored where they need it.
pub open spec fn ready_hooks(resolved: Seq<ManifestHookView>, path: Seq<char>) -> Seq<HookView> {
    resolved.filter(|h: ManifestHookView| !has_dependencies(h)).map_values(
        |h: ManifestHookView| placed(h, path),
    )
}

/// Those of `resolved` that need a repository of their own, numbered from `task` on.
pub open spec fn deferred_hooks(
    resolved: Seq<ManifestHookView>,
    repo: int,
    task: int,
) -> Seq<DeferredView> {
    let hooks = resolved.filter(|h: ManifestHookView| has_dependencies(h));
    Seq::new(hooks.len(), |k: int| DeferredView { task: task + k, repo, hook: hooks[k] })
}

/// The numbers of the deferred hooks.
pub open spec fn tasks(deferred: Seq<DeferredView>) -> Seq<int> {
    deferred.map_values(|d: DeferredView| d.task)
}

/// A preparation that has failed.
pub open spec fn failed(state: PreparationView, error: ErrorView) -> (PreparationView, ActionView) {
    (PreparationView { phase: Phase::Done, ..state }, ActionView::Fail(error))
}

/// The state in which a preparation begins.
pub open spec fn initial(config: ConfigWireView) -> PreparationView {
    PreparationView {
        config,
        phase: Phase::Repos,
        repos: remote_positions(config.repos),
        deferred: Seq::empty(),
        locals: local_hooks(config.repos),
        hooks: Seq::empty(),
    }
}

/// What a project gets from the remote repository at the position `index`, which offers the
/// hooks `offered`.
pub open spec fn taken_from(
    config: ConfigWireView,
    index: int,
    offered: Seq<ManifestHookView>,
) -> Seq<ManifestHookView> {
    resolved_hooks(offered, config.repos[index]->Remote_0.hooks, config)
}

/// With the hooks of the remote repository at the position `index`, which is stored at `path`
/// and offers the hooks `offered`.
pub open spec fn repo_added(
    state: PreparationView,
    index: int,
    path: Seq<char>,
    offered: Seq<ManifestHookView>,
) -> PreparationView {
    let resolved = taken_from(state.config, index, offered);
    PreparationView {
        repos: state.repos.remove(state.repos.index_of(index)),
        deferred: state.deferred + deferred_hooks(resolved, index, state.deferred.len() as int),
        hooks: state.hooks + ready_hooks(resolved, path),
        ..state
    }
}

/// With the deferred hook with the number `task`, whose repository is stored at `path`.
pub open spec fn environment_added(
    state: PreparationView,
    task: int,
    path: Seq<char>,
) -> PreparationView {
    let k = tasks(state.deferred).index_of(task);
    PreparationView {
        deferred: state.deferred.remove(k),
        hooks: state.hooks.push(HookView { config: state.deferred[k].hook, path: Some(path) }),
        ..state
    }
}

/// The next local hook, with the project's defaults.
pub open spec fn first_local(state: PreparationView) -> ManifestHookView {
    config::filled(state.locals[0], state.config)
}

/// With the next local hook, for which `path` was stored if it needs an environment.
pub open spec fn local_added(state: PreparationView, path: Seq<char>) -> PreparationView {
    PreparationView {
        locals: state.locals.drop_first(),
        hooks: state.hooks.push(placed(first_local(state), path)),
        ..state
    }
}

/// Goes on with the local hooks: those that need no environment are ready at once, up to the
/// first that needs one.
pub open spec fn next_local(state: PreparationView) -> (PreparationView, ActionView)
    decreases state.locals.len(),
{
    if state.locals.len() == 0 {
        (
            PreparationView { phase: Phase::Done, hooks: Seq::empty(), ..state },
            ActionView::Finish(state.hooks),
        )
    } else {
        if language::needs_environment(first_local(state).language) {
            (
                PreparationView { phase: Phase::Locals, ..state },
                ActionView::PrepareLocal(first_local(state)),
            )
        } else {
            next_local(local_added(state, Seq::empty()))
        }
    }
}

/// Goes on once no remote repository is waited for.
pub open spec fn repos_stored(state: PreparationView) -> (PreparationView, ActionView) {
    if state.deferred.len() > 0 {
        (
            PreparationView { phase: Phase::Environments, ..state },
            ActionView::PrepareEnvironments(state.deferred),
        )
    } else {
        next_local(state)
    }
}

/// The beginning of a preparation.
pub open spec fn started(config: ConfigWireView) -> (PreparationView, ActionView) {
    let state = initial(config);
    if state.repos.len() > 0 {
        (state, ActionView::PrepareRepos(state.repos))
    } else {
        repos_stored(state)
    }
}

/// Takes in the remote repository at the position `index`, which is stored at `path`.
pub open spec fn repo_taken(
    state: PreparationView,
    index: int,
    path: Seq<char>,
    repo: Result<RepoView, ErrorView>,
) -> (PreparationView, ActionView) {
    let wanted = state.config.repos[index]->Remote_0.hooks;
    match repo {
        Err(error) => failed(state, error),
        Ok(repo) => match first_missing(hook::offered(repo), wanted) {
            Some(hook) => failed(
                state,
                ErrorView::HookNotFound { hook, repo: hook::repo_label(repo) },
            ),
            None => {
                let next = repo_added(state, index, path, hook::offered(repo));
                if next.repos.len() > 0 {
                    (next, ActionView::Await)
                } else {
                    repos_stored(next)
                }
            },
        },
    }
}

/// Takes in the outcome of the deferred hook with the number `task`.
pub open spec fn environment_taken(
    state: PreparationView,
    task: int,
    path: Result<Seq<char>, Seq<char>>,
) -> (PreparationView, ActionView) {
    match path {
        Err(description) => failed(state, ErrorView::Store(description)),
        Ok(path) => {
            let next = environment_added(state, task, path);
            if next.deferred.len() > 0 {
                (next, ActionView::Await)
            } else {
                next_local(next)
            }
        },
    }
}

/// Takes in the outcome of the next local hook.
pub open spec fn local_taken(
    state: PreparationView,
    path: Result<Seq<char>, Seq<char>>,
) -> (PreparationView, ActionView) {
    match path {
        Err(description) => failed(state, ErrorView::Store(description)),
        Ok(path) => next_local(local_added(state, path)),
    }
}

/// Whether a preparation waits for what `event` reports.
pub open spec fn awaited(state: PreparationView, event: EventView) -> bool {
    match event {
        EventView::Repo { repo, .. } => state.phase == Phase::Repos && state.repos.contains(repo),
        EventView::Environment { task, .. } => state.phase == Phase::Environments && tasks(
            state.deferred,
        ).contains(task),
        EventView::Local { .. } => state.phase == Phase::Locals,
    }
}

/// Takes in an event.
pub open spec fn stepped(state: PreparationView, event: EventView) -> (
    PreparationView,
    ActionView,
) {
    match event {
        EventView::Repo { repo, stored } => match stored {
            Err(description) => failed(state, ErrorView::Store(description)),
            Ok(stored) => {
                let wanted = state.config.repos[repo]->Remote_0;
                repo_taken(
                    state,
                    repo,
                    stored.path,
                    hook::loaded_repo(
                        hook::parsed_url(wanted.repo),
                        wanted.rev,
                        stored.path,
                        stored.manifest,
                    ),
                )
            },
        },
        EventView::Environment { task, path } => environment_taken(state, task, path),
        EventView::Local { path } => local_taken(state, path),
    }
}

/// What holds of every state that a preparation comes to: what is waited for exists, no two
/// pieces of work have the same number, and only hooks with additional dependencies are
/// deferred.
pub open spec fn sound(state: PreparationView) -> bool {
    &&& state.repos.no_duplicates()
    &&& forall|i: int| #[trigger]
        state.repos.contains(i) ==> 0 <= i < state.config.repos.len()
            && state.config.repos[i] is Remote
    &&& tasks(state.deferred).no_duplicates()
    &&& state.phase == Phase::Repos ==> forall|k: int|
        0 <= k < state.deferred.len() ==> (#[trigger] state.deferred[k]).task == k
    &&& forall|k: int|
        0 <= k < state.deferred.len() ==> has_dependencies((#[trigger] state.deferred[k]).hook)
    &&& state.phase == Phase::Locals ==> state.locals.len() > 0 && language::needs_environment(
        first_local(state).language,
    )
}

impl<'a> Preparation<'a> {
    /// Whether the preparation is in a state that one can come to.
    pub closed spec fn wf(&self) -> bool {
        &&& self.next_local <= self.locals.len()
        &&& sound(self@)
    }

    /// Whether the preparation is in such a state but for its phase, which is left behind.
    spec fn wf_between(&self) -> bool {
        &&& self.next_local <= self.locals.len()
        &&& sound(PreparationView { phase: Phase::Done, ..self@ })
    }

    /// Begins to prepare the hooks of a project with the configuration `config`.
    pub fn start(config: &'a ConfigWire) -> (begun: (Self, Action))
        ensures
            begun.0.wf(),
            (begun.0@, begun.1@) == started(config@),
    {
        let mut repos: Vec<usize> = Vec::new();
        let mut locals: Vec<&'a ManifestHook> = Vec::new();
        let ghost all = config@.repos;
        assert(all.take(0) =~= Seq::<ConfigRepoView>::empty());
        assert(positions(repos@) =~= Seq::<int>::empty());
        assert(locals.deep_view() =~= Seq::<ManifestHookView>::empty());
        for i in 0..config.repos.len()
            invariant
                all == config@.repos,
                all == config.repos.deep_view(),
                positions(repos@) == remote_positions(all.take(i as int)),
                locals.deep_view() == local_hooks(all.take(i as int)),
        {
            assert(all.take(i + 1).drop_last() =~= all.take(i as int));
            match &config.repos[i] {
                ConfigRepo::Remote(_) => {
                    let ghost before = repos@;
                    repos.push(i);
                    assert(positions(repos@) =~= positions(before).push(i as int));
                },
                ConfigRepo::Local(repo) => {
                    let ghost before = locals.deep_view();
                    for k in 0..repo.hooks.len()
                        invariant
                            locals.deep_view() == before + repo.hooks.deep_view().take(k as int),
                    {
                        let ghost now = locals.deep_view();
                        locals.push(&repo.hooks[k]);
                        assert(locals.deep_view() =~= now.push(repo.hooks@[k as int]@));
                        assert(locals.deep_view() =~= before + repo.hooks.deep_view().take(k + 1));
                    }
                    assert(repo.hooks.deep_view().take(repo.hooks.len() as int)
                        =~= repo.hooks.deep_view());
                },
                ConfigRepo::Meta => {},
            }
        }
        assert(all.take(all.len() as int) =~= all);
        let mut preparation = Preparation {
            config,
            phase: Phase::Repos,
            repos,
            deferred: Vec::new(),
            locals,
            next_local: 0,
            hooks: Vec::new(),
        };
        proof {
            lemma_remote_positions(all);
            assert(preparation@.deferred =~= Seq::<DeferredView>::empty());
            assert(preparation@.hooks =~= Seq::<HookView>::empty());
            assert(preparation@.locals =~= local_hooks(all));
            assert(tasks(preparation@.deferred) =~= Seq::<int>::empty());
        }
        let action = if preparation.repos.len() > 0 {
            Action::PrepareRepos(preparation.repos.clone())
        } else {
            preparation.after_repos()
        };
        (preparation, action)
    }

    /// Goes on once no remote repository is waited for.
    fn after_repos(&mut self) -> (action: Action)
        requires
            old(self).wf(),
            old(self)@.phase == Phase::Repos,
        ensures
            final(self).wf(),
            (final(self)@, action@) == repos_stored(old(self)@),
    {
        if self.deferred.len() > 0 {
            self.phase = Phase::Environments;
            let mut copies: Vec<Deferred> = Vec::new();
            for i in 0..self.deferred.len()
                invariant
                    copies.deep_view() == self.deferred.deep_view().take(i as int),
            {
                let ghost now = copies.deep_view();
                copies.push(self.deferred[i].clone());
                assert(copies.deep_view() =~= now.push(self.deferred.deep_view()[i as int]));
                assert(copies.deep_view() =~= self.deferred.deep_view().take(i + 1));
            }
            assert(copies.deep_view() =~= self.deferred.deep_view());
            Action::PrepareEnvironments(copies)
        } else {
            self.after_environments()
        }
    }

    /// Goes on with the local hooks.
    fn after_environments(&mut self) -> (action: Action)
        requires
            old(self).wf_between(),
        ensures
            final(self).wf(),
            (final(self)@, action@) == next_local(old(self)@),
    {
        while self.next_local < self.locals.len()
            invariant
                self.wf_between(),
                next_local(self@) == next_local(old(self)@),
            decreases self.locals.len() - self.next_local,
        {
            let ghost before = self@;
            let mut hook = self.locals[self.next_local].clone();
            hook.fill(self.config);
            assert(self@.locals[0] == self.locals.deep_view()[self.next_local as int]);
            if hook.language.need_environment() {
                self.phase = Phase::Locals;
                return Action::PrepareLocal(hook);
            }
            self.hooks.push(Hook::new(hook, None));
            self.next_local = self.next_local + 1;
            assert(self@.locals =~= before.locals.drop_first());
            assert(self@.hooks =~= local_added(before, Seq::empty()).hooks);
        }
        let mut hooks: Vec<Hook> = Vec::new();
        std::mem::swap(&mut hooks, &mut self.hooks);
        self.phase = Phase::Done;
        assert(self@.hooks =~= Seq::<HookView>::empty());
        Action::Finish(hooks)
    }
}

/// The positions of the remote repositories are distinct and lead to remote repositories.
pub proof fn lemma_remote_positions(repos: Seq<ConfigRepoView>)
    ensures
        remote_positions(repos).no_duplicates(),
        forall|i: int| #[trigger]
            remote_positions(repos).contains(i) <==> 0 <= i < repos.len() && repos[i] is Remote,
    decreases repos.len(),
{
    if repos.len() > 0 {
        let before = remote_positions(repos.drop_last());
        lemma_remote_positions(repos.drop_last());
        let now = remote_positions(repos);
        assert forall|i: int| #[trigger]
            now.contains(i) <==> 0 <= i < repos.len() && repos[i] is Remote by {
            assert(before.contains(i) <==> 0 <= i < repos.len() - 1 && repos[i] is Remote);
            if before.contains(i) {
                let k = before.index_of(i);
                assert(now[k] == i);
            }
            if repos.last() is Remote {
                assert(now[before.len() as int] == repos.len() - 1);
            }
        }
        if repos.last() is Remote {
            assert(!before.contains(repos.len() - 1));
            assert forall|i: int, j: int|
                0 <= i < now.len() && 0 <= j < now.len() && i != j implies now[i] != now[j] by {
                if i < before.len() {
                    assert(before.contains(before[i]));
                }
                if j < before.len() {
                    assert(before.contains(before[j]));
                }
            }
        }
    }
}

impl<'a> Preparation<'a> {
    /// The remote repository at the position `index` of the configuration.
    pub fn remote_repo(&self, index: usize) -> (repo: Option<&'a ConfigRemoteRepo>)
        ensures
            match repo {
                Some(repo) => index < self@.config.repos.len()
                    && self@.config.repos[index as int] == ConfigRepoView::Remote(repo@),
                None => index >= self@.config.repos.len() || !(self@.config.repos[index as int]
                    is Remote),
            },
    {
        if index >= self.config.repos.len() {
            return None;
        }
        match &self.config.repos[index] {
            ConfigRepo::Remote(repo) => Some(repo),
            _ => None,
        }
    }

    /// Whether the preparation waits for what `event` reports.
    pub fn awaits(&self, event: &Event) -> (yes: bool)
        ensures
            yes == awaited(self@, event@),
    {
        match event {
            Event::Repo { repo, .. } => {
                self.phase == Phase::Repos && self.repo_at(*repo).is_some()
            },
            Event::Environment { task, .. } => {
                self.phase == Phase::Environments && self.deferred_at(*task).is_some()
            },
            Event::Local { .. } => self.phase == Phase::Locals,
        }
    }

    /// Where the remote repository at the position `repo` stands among those waited for.
    fn repo_at(&self, repo: usize) -> (at: Option<usize>)
        ensures
            match at {
                Some(at) => at < self@.repos.len() && self@.repos[at as int] == repo
                    && self@.repos.contains(repo as int),
                None => !self@.repos.contains(repo as int),
            },
    {
        for i in 0..self.repos.len()
            invariant
                forall|k: int| 0 <= k < i ==> self@.repos[k] != repo,
        {
            if self.repos[i] == repo {
                assert(self@.repos[i as int] == repo);
                return Some(i);
            }
        }
        None
    }

    /// Where the hook with the number `task` stands among the deferred ones.
    fn deferred_at(&self, task: usize) -> (at: Option<usize>)
        ensures
            match at {
                Some(at) => at < self@.deferred.len() && self@.deferred[at as int].task == task
                    && tasks(self@.deferred).contains(task as int),
                None => !tasks(self@.deferred).contains(task as int),
            },
    {
        for i in 0..self.deferred.len()
            invariant
                forall|k: int| 0 <= k < i ==> self@.deferred[k].task != task,
        {
            if self.deferred[i].task == task {
                assert(tasks(self@.deferred)[i as int] == task);
                return Some(i);
            }
        }
        None
    }

    /// Takes in how a piece of work ended, and says what is to be done next.
    pub fn step(&mut self, event: Event) -> (action: Action)
        requires
            old(self).wf(),
            awaited(old(self)@, event@),
        ensures
            final(self).wf(),
            (final(self)@, action@) == stepped(old(self)@, event@),
    {
        match event {
            Event::Repo { repo, stored } => match stored {
                Err(description) => self.fail(Error::Store(description)),
                Ok(stored) => {
                    let loaded = match &self.config.repos[repo] {
                        ConfigRepo::Remote(wanted) => Repo::remote(
                            wanted.repo.as_str(),
                            wanted.rev.as_str(),
                            stored.path.as_str(),
                            stored.manifest,
                        ),
                        // Only remote repositories are waited for.
                        _ => return Action::Await,
                    };
                    self.take_repo(repo, stored.path, loaded)
                },
            },
            Event::Environment { task, path } => self.take_environment(task, path),
            Event::Local { path } => self.take_local(path),
        }
    }

    /// Gives up.
    fn fail(&mut self, error: Error) -> (action: Action)
        requires
            old(self).wf(),
        ensures
            final(self).wf(),
            (final(self)@, action@) == failed(old(self)@, error@),
    {
        self.phase = Phase::Done;
        Action::Fail(error)
    }

    /// Takes in the remote repository at the position `index` of the configuration, which is
    /// stored at `path`.
    pub fn take_repo(&mut self, index: usize, path: String, repo: Result<Repo, Error>) -> (action:
        Action)
        requires
            old(self).wf(),
            old(self)@.phase == Phase::Repos,
            old(self)@.repos.contains(index as int),
        ensures
            final(self).wf(),
            (final(self)@, action@) == repo_taken(
                old(self)@,
                index as int,
                path@,
                hook::outcome(repo),
            ),
    {
        let loaded = match repo {
            Ok(loaded) => loaded,
            Err(error) => return self.fail(error),
        };
        let wanted = match &self.config.repos[index] {
            ConfigRepo::Remote(wanted) => wanted,
            // Only remote repositories are waited for.
            _ => return Action::Await,
        };
        let (mut ready, later) = match self.resolve(wanted, &loaded, path.as_str()) {
            Ok(resolved) => resolved,
            Err(error) => return self.fail(error),
        };
        let at: usize = match self.repo_at(index) {
            Some(at) => at,
            // The caller has seen to it that the repository is waited for.
            None => return Action::Await,
        };
        let ghost before = self@;
        proof {
            lemma_index_of(before.repos, at as int);
            lemma_remove_keeps_distinct(before.repos, at as int);
        }
        self.repos.remove(at);
        assert(self@.repos =~= before.repos.remove(at as int));
        let ghost own = self.hooks.deep_view();
        let ghost added = ready.deep_view();
        self.hooks.append(&mut ready);
        assert(self@.hooks =~= own + added);
        let ghost hooks = later.deep_view();
        for i in 0..later.len()
            invariant
                hooks == later.deep_view(),
                self.next_local <= self.locals.len(),
                self@.deferred =~= before.deferred + Seq::new(
                    i as nat,
                    |k: int|
                        DeferredView {
                            task: before.deferred.len() + k,
                            repo: index as int,
                            hook: hooks[k],
                        },
                ),
                self@ == (PreparationView {
                    repos: before.repos.remove(at as int),
                    deferred: self@.deferred,
                    hooks: own + added,
                    ..before
                }),
        {
            let ghost now = self@.deferred;
            let hook = later[i].clone();
            let task: usize = self.deferred.len();
            self.deferred.push(Deferred { task, repo: index, hook });
            assert(self@.deferred =~= now.push(
                DeferredView { task: task as int, repo: index as int, hook: hooks[i as int] },
            ));
        }
        proof {
            let resolved = taken_from(before.config, index as int, hook::offered(loaded@));
            assert forall|k: int| 0 <= k < hooks.len() implies has_dependencies(
                #[trigger] hooks[k],
            ) by {
                seqs::lemma_filter_keeps(
                    resolved,
                    |h: ManifestHookView| has_dependencies(h),
                    k,
                );
            }
            assert(self@.deferred =~= before.deferred + deferred_hooks(
                resolved,
                index as int,
                before.deferred.len() as int,
            ));
            assert(tasks(self@.deferred).no_duplicates());
        }
        if self.repos.len() > 0 {
            Action::Await
        } else {
            self.after_repos()
        }
    }

    /// Resolves the hooks that are wanted of `repo`, which is stored at `path`: those that
    /// are ready, and those with additional dependencies.
    fn resolve(&self, wanted: &ConfigRemoteRepo, repo: &Repo, path: &str) -> (found: Result<
        (Vec<Hook>, Vec<ManifestHook>),
        Error,
    >)
        ensures
            match first_missing(hook::offered(repo@), wanted@.hooks) {
                Some(id) => found matches Err(error) && error@ == (ErrorView::HookNotFound {
                    hook: id,
                    repo: hook::repo_label(repo@),
                }),
                None => {
                    let resolved = resolved_hooks(
                        hook::offered(repo@),
                        wanted@.hooks,
                        self@.config,
                    );
                    found matches Ok((ready, later)) && ready.deep_view() == ready_hooks(
                        resolved,
                        path@,
                    ) && later.deep_view() == resolved.filter(
                        |h: ManifestHookView| has_dependencies(h),
                    )
                },
            },
    {
        let ghost offered = hook::offered(repo@);
        let ghost all = wanted@.hooks;
        let ghost no_dependencies = |h: ManifestHookView| !has_dependencies(h);
        let ghost dependencies = |h: ManifestHookView| has_dependencies(h);
        let mut ready: Vec<Hook> = Vec::new();
        let mut later: Vec<ManifestHook> = Vec::new();
        proof {
            assert(all.skip(0) =~= all);
            let none = resolved_hooks(offered, all.take(0), self@.config);
            assert(none =~= Seq::<ManifestHookView>::empty());
            seqs::lemma_filter_empty(no_dependencies);
            seqs::lemma_filter_empty(dependencies);
            assert(ready.deep_view() =~= ready_hooks(none, path@));
            assert(later.deep_view() =~= none.filter(dependencies));
        }
        for i in 0..wanted.hooks.len()
            invariant
                all == wanted@.hooks,
                all == wanted.hooks.deep_view(),
                offered == hook::offered(repo@),
                no_dependencies == (|h: ManifestHookView| !has_dependencies(h)),
                dependencies == (|h: ManifestHookView| has_dependencies(h)),
                first_missing(offered, all) == first_missing(offered, all.skip(i as int)),
                ready.deep_view() == ready_hooks(
                    resolved_hooks(offered, all.take(i as int), self@.config),
                    path@,
                ),
                later.deep_view() == resolved_hooks(
                    offered,
                    all.take(i as int),
                    self@.config,
                ).filter(dependencies),
        {
            let config = &wanted.hooks[i];
            assert(all.skip(i as int).drop_first() =~= all.skip(i + 1));
            let mut hook = match repo.get_hook(config.id.as_str()) {
                Some(hook) => hook.clone(),
                None => {
                    return Err(
                        Error::HookNotFound { hook: config.id.clone(), repo: repo.to_string() },
                    );
                },
            };
            hook.update(config);
            hook.fill(self.config);
            proof {
                let done = resolved_hooks(offered, all.take(i as int), self@.config);
                let more = resolved_hooks(offered, all.take(i + 1), self@.config);
                assert(hook@ == resolved_hook(offered, all[i as int], self@.config));
                assert(more =~= done.push(hook@));
                seqs::lemma_filter_push(done, hook@, no_dependencies);
                seqs::lemma_filter_push(done, hook@, dependencies);
            }
            let ghost ready_before = ready.deep_view();
            let ghost later_before = later.deep_view();
            let ghost resolved = hook@;
            if hook.additional_dependencies.is_some() {
                later.push(hook);
                assert(later.deep_view() =~= later_before.push(resolved));
            } else {
                let place = if hook.language.need_environment() {
                    Some(path.to_owned())
                } else {
                    None
                };
                ready.push(Hook::new(hook, place));
                assert(ready.deep_view() =~= ready_before.push(placed(resolved, path@)));
                assert(ready.deep_view() =~= ready_hooks(
                    resolved_hooks(offered, all.take(i + 1), self@.config),
                    path@,
                ));
            }
        }
        assert(all.take(all.len() as int) =~= all);
        Ok((ready, later))
    }

    /// Takes in the outcome of the deferred hook with the number `task`.
    fn take_environment(&mut self, task: usize, path: Result<String, String>) -> (action: Action)
        requires
            old(self).wf(),
            old(self)@.phase == Phase::Environments,
            tasks(old(self)@.deferred).contains(task as int),
        ensures
            final(self).wf(),
            (final(self)@, action@) == environment_taken(
                old(self)@,
                task as int,
                hook::outcome(path),
            ),
    {
        let path = match path {
            Ok(path) => path,
            Err(description) => return self.fail(Error::Store(description)),
        };
        let at: usize = match self.deferred_at(task) {
            Some(at) => at,
            None => return Action::Await,
        };
        let ghost before = self@;
        proof {
            lemma_index_of(tasks(before.deferred), at as int);
        }
        let deferred = self.deferred.remove(at);
        self.hooks.push(Hook::new(deferred.hook, Some(path)));
        proof {
            assert(self@.deferred =~= before.deferred.remove(at as int));
            assert(self@.hooks =~= before.hooks.push(
                HookView { config: before.deferred[at as int].hook, path: Some(path@) },
            ));
            assert(tasks(self@.deferred) =~= tasks(before.deferred).remove(at as int));
        }
        if self.deferred.len() > 0 {
            Action::Await
        } else {
            self.after_environments()
        }
    }

    /// Takes in the outcome of the next local hook.
    fn take_local(&mut self, path: Result<String, String>) -> (action: Action)
        requires
            old(self).wf(),
            old(self)@.phase == Phase::Locals,
        ensures
            final(self).wf(),
            (final(self)@, action@) == local_taken(old(self)@, hook::outcome(path)),
    {
        let path = match path {
            Ok(path) => path,
            Err(description) => return self.fail(Error::Store(description)),
        };
        let ghost before = self@;
        let mut hook = self.locals[self.next_local].clone();
        hook.fill(self.config);
        assert(self@.locals[0] == self.locals.deep_view()[self.next_local as int]);
        self.hooks.push(Hook::new(hook, Some(path)));
        self.next_local = self.next_local + 1;
        assert(self@.locals =~= before.locals.drop_first());
        assert(self@.hooks =~= local_added(before, path@).hooks);
        self.after_environments()
    }
}

/// In a sequence without duplicates an element stands in one place only.
proof fn lemma_index_of<A>(s: Seq<A>, at: int)
    requires
        s.no_duplicates(),
        0 <= at < s.len(),
    ensures
        s.index_of(s[at]) == at,
        s.contains(s[at]),
{
    let k = s.index_of(s[at]);
    assert(s[k] == s[at]);
}

/// Taking one element out of a sequence without duplicates leaves no duplicates, and all the
/// other elements.
pub proof fn lemma_remove_keeps_distinct<A>(s: Seq<A>, at: int)
    requires
        s.no_duplicates(),
        0 <= at < s.len(),
    ensures
        s.remove(at).no_duplicates(),
        forall|x: A| #[trigger] s.remove(at).contains(x) ==> s.contains(x),
{
    let rest = s.remove(at);
    assert forall|x: A| #[trigger] rest.contains(x) implies s.contains(x) by {
        let k = rest.index_of(x);
        assert(x == if k < at {
            s[k]
        } else {
            s[k + 1]
        });
    }
}

/// A hook is missing exactly if one is wanted that is not offered, and then it is the first
/// of these.
pub proof fn the_first_missing_hook_is_reported(
    offered: Seq<ManifestHookView>,
    wanted: Seq<ConfigRemoteHookView>,
)
    ensures
        match first_missing(offered, wanted) {
            Some(id) => exists|i: int|
                0 <= i < wanted.len() && (#[trigger] wanted[i]).id == id && hook::first_with_id(
                    offered,
                    id,
                ) is None && forall|j: int|
                    0 <= j < i ==> hook::first_with_id(offered, (#[trigger] wanted[j]).id) is Some,
            None => forall|i: int|
                0 <= i < wanted.len() ==> hook::first_with_id(
                    offered,
                    (#[trigger] wanted[i]).id,
                ) is Some,
        },
    decreases wanted.len(),
{
    if wanted.len() > 0 && hook::first_with_id(offered, wanted[0].id) is Some {
        let rest = wanted.drop_first();
        the_first_missing_hook_is_reported(offered, rest);
        match first_missing(offered, rest) {
            Some(id) => {
                let i = choose|i: int|
                    0 <= i < rest.len() && (#[trigger] rest[i]).id == id && hook::first_with_id(
                        offered,
                        id,
                    ) is None && forall|j: int|
                        0 <= j < i ==> hook::first_with_id(
                            offered,
                            (#[trigger] rest[j]).id,
                        ) is Some;
                assert(wanted[i + 1].id == id);
                assert forall|j: int| 0 <= j < i + 1 implies hook::first_with_id(
                    offered,
                    (#[trigger] wanted[j]).id,
                ) is Some by {
                    if j > 0 {
                        assert(rest[j - 1] == wanted[j]);
                    }
                }
            },
            None => {
                assert forall|i: int| 0 <= i < wanted.len() implies hook::first_with_id(
                    offered,
                    (#[trigger] wanted[i]).id,
                ) is Some by {
                    if i > 0 {
                        assert(rest[i - 1] == wanted[i]);
                    }
                }
            },
        }
    } else if wanted.len() > 0 {
        assert(wanted[0].id == wanted[0].id);
    }
}

/// Whether the hook at the position `at` is the first of `hooks` that has the id `id`.
pub open spec fn is_first_with_id(hooks: Seq<ManifestHookView>, id: Seq<char>, at: int) -> bool {
    &&& 0 <= at < hooks.len()
    &&& hooks[at].id == id
    &&& forall|j: int| 0 <= j < at ==> (#[trigger] hooks[j]).id != id
}

/// Whether one of `hooks` has the id `id`.
pub open spec fn has_id(hooks: Seq<ManifestHookView>, id: Seq<char>) -> bool {
    exists|i: int| 0 <= i < hooks.len() && (#[trigger] hooks[i]).id == id
}

/// A hook is missing exactly if the project asks for an id that no offered hook has, and it is
/// the first such id that is reported.
pub proof fn a_hook_is_missing_exactly_if_none_has_its_id(
    offered: Seq<ManifestHookView>,
    wanted: Seq<ConfigRemoteHookView>,
)
    ensures
        match first_missing(offered, wanted) {
            Some(id) => exists|i: int|
                0 <= i < wanted.len() && (#[trigger] wanted[i]).id == id && !has_id(offered, id)
                    && forall|j: int| 0 <= j < i ==> has_id(offered, (#[trigger] wanted[j]).id),
            None => forall|i: int|
                0 <= i < wanted.len() ==> has_id(offered, (#[trigger] wanted[i]).id),
        },
{
    the_first_missing_hook_is_reported(offered, wanted);
    assert forall|i: int| 0 <= i < wanted.len() implies (has_id(
        offered,
        (#[trigger] wanted[i]).id,
    ) <==> hook::first_with_id(offered, wanted[i].id) is Some) by {
        hook::the_first_hook_of_an_id_is_found(offered, wanted[i].id);
    }
    if let Some(id) = first_missing(offered, wanted) {
        let i = choose|i: int|
            0 <= i < wanted.len() && (#[trigger] wanted[i]).id == id && hook::first_with_id(
                offered,
                id,
            ) is None && forall|j: int|
                0 <= j < i ==> hook::first_with_id(offered, (#[trigger] wanted[j]).id) is Some;
        assert(!has_id(offered, wanted[i].id));
        assert forall|j: int| 0 <= j < i implies has_id(offered, (#[trigger] wanted[j]).id) by {
            assert(hook::first_with_id(offered, wanted[j].id) is Some);
        }
    }
}

/// What a project gets for an entry is as it asks for, of the first offered hook that has the
/// id, `at` being its position. The additional dependencies make no difference.
pub proof fn a_project_gets_what_it_asks_for(
    offered: Seq<ManifestHookView>,
    wanted: ConfigRemoteHookView,
    config: ConfigWireView,
) -> (at: int)
    requires
        has_id(offered, wanted.id),
    ensures
        is_first_with_id(offered, wanted.id, at),
        config::is_as_asked_for(
            resolved_hook(offered, wanted, config),
            offered[at],
            wanted,
            config,
        ),
{
    hook::the_first_hook_of_an_id_is_found(offered, wanted.id);
    let found = hook::first_with_id(offered, wanted.id);
    let i = choose|i: int| 0 <= i < offered.len() && (#[trigger] offered[i]).id == wanted.id;
    assert(offered[i].id == wanted.id);
    assert(found is Some);
    let at = choose|at: int|
        0 <= at < offered.len() && #[trigger] offered[at] == found->0 && found->0.id == wanted.id
            && forall|j: int| 0 <= j < at ==> (#[trigger] offered[j]).id != wanted.id;
    config::a_hook_is_updated_and_then_filled(offered[at], wanted, config);
    at
}

/// A hook for which a path was stored has it exactly if it needs an environment, and stays
/// the hook that it is.
pub proof fn a_hook_is_placed_where_it_was_stored(hook: ManifestHookView, path: Seq<char>)
    ensures
        placed(hook, path).config == hook,
        language::needs_environment(hook.language) ==> placed(hook, path).path == Some(path),
        !language::needs_environment(hook.language) ==> placed(hook, path).path is None,
{
}

/// The hooks of several repositories are those of the first ones, then those of the others;
/// only local repositories describe local hooks, and only remote ones are stored.
pub proof fn repositories_are_gone_through_in_order(
    first: Seq<ConfigRepoView>,
    repo: ConfigRepoView,
)
    ensures
        local_hooks(Seq::empty()) == Seq::<ManifestHookView>::empty(),
        repo matches ConfigRepoView::Local(hooks) ==> local_hooks(first.push(repo)) == local_hooks(
            first,
        ) + hooks,
        !(repo is Local) ==> local_hooks(first.push(repo)) == local_hooks(first),
        remote_positions(Seq::empty()) == Seq::<int>::empty(),
        repo is Remote ==> remote_positions(first.push(repo)) == remote_positions(first).push(
            first.len() as int,
        ),
        !(repo is Remote) ==> remote_positions(first.push(repo)) == remote_positions(first),
{
    assert(first.push(repo).drop_last() =~= first);
}

} // verus!
