//! What holds of a whole preparation, in whatever order its pieces of work end.

use vstd::multiset::Multiset;
use vstd::prelude::*;

use crate::config;
use crate::config::{ConfigRepoView, ConfigWireView, ManifestHookView};
use crate::error::ErrorView;
use crate::hook;
use crate::hook::HookView;
use crate::language;
use crate::prepare;
use crate::prepare::{ActionView, DeferredView, EventView, Phase, PreparationView};
use crate::seqs;

verus! {

/// Where a preparation is after `events`.
pub open spec fn after(config: ConfigWireView, events: Seq<EventView>) -> (
    PreparationView,
    ActionView,
)
    decreases events.len(),
{
    if events.len() == 0 {
        prepare::started(config)
    } else {
        prepare::stepped(after(config, events.drop_last()).0, events.last())
    }
}

/// Why the outcome that `event` reports cannot be used, if it cannot.
pub open spec fn failure(state: PreparationView, event: EventView) -> Option<ErrorView> {
    match event {
        EventView::Environment { path: Err(description), .. } => Some(
            ErrorView::Store(description),
        ),
        EventView::Local { path: Err(description) } => Some(ErrorView::Store(description)),
        EventView::Repo { stored: Err(description), .. } => Some(ErrorView::Store(description)),
        EventView::Repo { repo, stored: Ok(stored) } => {
            let wanted = state.config.repos[repo]->Remote_0;
            match (hook::parsed_url(wanted.repo), stored.manifest) {
                (Err(description), _) => Some(ErrorView::InvalidUrl(description)),
                (Ok(_), Err(description)) => Some(ErrorView::ReadConfig(description)),
                (Ok(url), Ok(offered)) => match prepare::first_missing(offered, wanted.hooks) {
                    Some(hook) => Some(
                        ErrorView::HookNotFound { hook, repo: url + "@"@ + wanted.rev },
                    ),
                    None => None,
                },
            }
        },
        _ => None,
    }
}

/// The state with what `event` adds to it, if its outcome can be used.
pub open spec fn added(state: PreparationView, event: EventView) -> PreparationView {
    match event {
        EventView::Repo { repo, stored } => prepare::repo_added(
            state,
            repo,
            stored->Ok_0.path,
            stored->Ok_0.manifest->Ok_0,
        ),
        EventView::Environment { task, path } => prepare::environment_added(
            state,
            task,
            path->Ok_0,
        ),
        EventView::Local { path } => prepare::local_added(state, path->Ok_0),
    }
}

/// Goes on once something was added.
spec fn gone_on(state: PreparationView) -> (PreparationView, ActionView) {
    if state.phase == Phase::Repos && state.repos.len() > 0 {
        (state, ActionView::Await)
    } else if state.phase == Phase::Repos {
        prepare::repos_stored(state)
    } else if state.phase == Phase::Environments && state.deferred.len() > 0 {
        (state, ActionView::Await)
    } else {
        prepare::next_local(state)
    }
}

/// An event fails a preparation, or adds to it and lets it go on.
proof fn lemma_stepped(state: PreparationView, event: EventView)
    requires
        prepare::awaited(state, event),
    ensures
        prepare::stepped(state, event) == match failure(state, event) {
            Some(error) => prepare::failed(state, error),
            None => gone_on(added(state, event)),
        },
{
}

/// Whether each of `events` reports what the preparation waited for at that time.
pub open spec fn possible(config: ConfigWireView, events: Seq<EventView>) -> bool
    decreases events.len(),
{
    events.len() > 0 ==> {
        &&& possible(config, events.drop_last())
        &&& prepare::awaited(after(config, events.drop_last()).0, events.last())
    }
}

/// Whether the manifests that `event` reports are those of `manifests`, which has the hooks
/// that the repository at each position offers.
pub open spec fn reads(event: EventView, manifests: spec_fn(int) -> Seq<ManifestHookView>) -> bool {
    match event {
        EventView::Repo { repo, stored: Ok(stored) } => stored.manifest matches Ok(hooks)
            ==> hooks == manifests(repo),
        _ => true,
    }
}

/// The hooks, without their paths.
pub open spec fn configs(hooks: Seq<HookView>) -> Seq<ManifestHookView> {
    hooks.map_values(|h: HookView| h.config)
}

/// The deferred hooks, without their numbers.
pub open spec fn waiting(deferred: Seq<DeferredView>) -> Seq<ManifestHookView> {
    deferred.map_values(|d: DeferredView| d.hook)
}

/// Local hooks, with the project's defaults.
pub open spec fn with_defaults(hooks: Seq<ManifestHookView>, config: ConfigWireView) -> Seq<
    ManifestHookView,
> {
    hooks.map_values(|h: ManifestHookView| config::filled(h, config))
}

/// What the project gets from the repository at the position `index`.
pub open spec fn hooks_of_repo(
    config: ConfigWireView,
    manifests: spec_fn(int) -> Seq<ManifestHookView>,
    index: int,
) -> Seq<ManifestHookView> {
    match config.repos[index] {
        ConfigRepoView::Remote(_) => prepare::taken_from(config, index, manifests(index)),
        ConfigRepoView::Local(hooks) => with_defaults(hooks, config),
        ConfigRepoView::Meta => Seq::empty(),
    }
}

/// What the project gets from its first `n` repositories.
pub open spec fn hooks_of_repos(
    config: ConfigWireView,
    manifests: spec_fn(int) -> Seq<ManifestHookView>,
    n: nat,
) -> Seq<ManifestHookView>
    decreases n,
{
    if n == 0 {
        Seq::empty()
    } else {
        hooks_of_repos(config, manifests, (n - 1) as nat) + hooks_of_repo(
            config,
            manifests,
            n - 1,
        )
    }
}

/// All hooks that a project is configured with, in the order of the configuration.
pub open spec fn configured_hooks(
    config: ConfigWireView,
    manifests: spec_fn(int) -> Seq<ManifestHookView>,
) -> Seq<ManifestHookView> {
    hooks_of_repos(config, manifests, config.repos.len())
}

/// The hooks of the repositories at `repos`.
spec fn owed(
    repos: Seq<int>,
    config: ConfigWireView,
    manifests: spec_fn(int) -> Seq<ManifestHookView>,
) -> Multiset<ManifestHookView>
    decreases repos.len(),
{
    if repos.len() == 0 {
        Multiset::empty()
    } else {
        owed(repos.drop_last(), config, manifests).add(
            hooks_of_repo(config, manifests, repos.last()).to_multiset(),
        )
    }
}

/// All hooks that a preparation has or will have.
spec fn accounted(
    state: PreparationView,
    manifests: spec_fn(int) -> Seq<ManifestHookView>,
) -> Multiset<ManifestHookView> {
    configs(state.hooks).to_multiset().add(waiting(state.deferred).to_multiset()).add(
        with_defaults(state.locals, state.config).to_multiset(),
    ).add(owed(state.repos, state.config, manifests))
}

/// All hooks that a preparation has handed out, has or will have.
spec fn accounted_with(
    now: (PreparationView, ActionView),
    manifests: spec_fn(int) -> Seq<ManifestHookView>,
) -> Multiset<ManifestHookView> {
    match now.1 {
        ActionView::Finish(hooks) => accounted(now.0, manifests).add(configs(hooks).to_multiset()),
        _ => accounted(now.0, manifests),
    }
}

proof fn lemma_owed_remove(
    repos: Seq<int>,
    at: int,
    config: ConfigWireView,
    manifests: spec_fn(int) -> Seq<ManifestHookView>,
)
    requires
        0 <= at < repos.len(),
    ensures
        owed(repos, config, manifests) == owed(repos.remove(at), config, manifests).add(
            hooks_of_repo(config, manifests, repos[at]).to_multiset(),
        ),
    decreases repos.len(),
{
    let rest = repos.remove(at);
    if at == repos.len() - 1 {
        assert(rest =~= repos.drop_last());
    } else {
        lemma_owed_remove(repos.drop_last(), at, config, manifests);
        assert(rest.drop_last() =~= repos.drop_last().remove(at));
        assert(rest.last() == repos.last());
        assert(owed(repos, config, manifests) =~= owed(rest, config, manifests).add(
            hooks_of_repo(config, manifests, repos[at]).to_multiset(),
        ));
    }
}

proof fn lemma_split(s: Seq<ManifestHookView>)
    ensures
        s.to_multiset() == s.filter(
            |h: ManifestHookView| !prepare::has_dependencies(h),
        ).to_multiset().add(
            s.filter(|h: ManifestHookView| prepare::has_dependencies(h)).to_multiset(),
        ),
    decreases s.len(),
{
    let without = |h: ManifestHookView| !prepare::has_dependencies(h);
    let with = |h: ManifestHookView| prepare::has_dependencies(h);
    if s.len() == 0 {
        seqs::lemma_filter_empty(without);
        seqs::lemma_filter_empty(with);
        assert(s =~= Seq::<ManifestHookView>::empty());
        s.to_multiset_ensures();
        assert(s.to_multiset() =~= Multiset::<ManifestHookView>::empty());
    } else {
        let init = s.drop_last();
        lemma_split(init);
        assert(init.push(s.last()) =~= s);
        seqs::lemma_filter_push(init, s.last(), without);
        seqs::lemma_filter_push(init, s.last(), with);
        vstd::seq_lib::to_multiset_build(init, s.last());
        vstd::seq_lib::to_multiset_build(init.filter(without), s.last());
        vstd::seq_lib::to_multiset_build(init.filter(with), s.last());
        assert(s.to_multiset() =~= s.filter(without).to_multiset().add(
            s.filter(with).to_multiset(),
        ));
    }
}

proof fn lemma_next_local_accounted(
    state: PreparationView,
    manifests: spec_fn(int) -> Seq<ManifestHookView>,
)
    ensures
        accounted_with(prepare::next_local(state), manifests) == accounted(state, manifests),
    decreases state.locals.len(),
{
    if state.locals.len() == 0 {
        let now = prepare::next_local(state);
        assert(configs(now.0.hooks) =~= Seq::<ManifestHookView>::empty());
        Seq::<ManifestHookView>::empty().to_multiset_ensures();
        assert(accounted_with(now, manifests) =~= accounted(state, manifests));
    } else if !language::needs_environment(prepare::first_local(state).language) {
        lemma_local_added_accounted(state, Seq::empty(), manifests);
        lemma_next_local_accounted(prepare::local_added(state, Seq::empty()), manifests);
    }
}

proof fn lemma_local_added_accounted(
    state: PreparationView,
    path: Seq<char>,
    manifests: spec_fn(int) -> Seq<ManifestHookView>,
)
    requires
        state.locals.len() > 0,
    ensures
        accounted(prepare::local_added(state, path), manifests) == accounted(state, manifests),
{
    let next = prepare::local_added(state, path);
    let hook = prepare::first_local(state);
    let locals = with_defaults(state.locals, state.config);
    assert(with_defaults(next.locals, next.config) =~= locals.remove(0));
    vstd::seq_lib::to_multiset_remove(locals, 0);
    locals.to_multiset_ensures();
    assert(locals.contains(locals[0]));
    assert(configs(next.hooks) =~= configs(state.hooks).push(hook));
    vstd::seq_lib::to_multiset_build(configs(state.hooks), hook);
    assert(accounted(next, manifests) =~= accounted(state, manifests));
}

proof fn lemma_repo_added_accounted(
    state: PreparationView,
    index: int,
    path: Seq<char>,
    manifests: spec_fn(int) -> Seq<ManifestHookView>,
)
    requires
        state.repos.contains(index),
        state.config.repos[index] is Remote,
    ensures
        accounted(prepare::repo_added(state, index, path, manifests(index)), manifests)
            == accounted(state, manifests),
{
    let next = prepare::repo_added(state, index, path, manifests(index));
    let resolved = prepare::taken_from(state.config, index, manifests(index));
    let without = resolved.filter(|h: ManifestHookView| !prepare::has_dependencies(h));
    let with = resolved.filter(|h: ManifestHookView| prepare::has_dependencies(h));
    lemma_owed_remove(state.repos, state.repos.index_of(index), state.config, manifests);
    assert(configs(next.hooks) =~= configs(state.hooks) + without);
    assert(waiting(next.deferred) =~= waiting(state.deferred) + with);
    vstd::seq_lib::lemma_multiset_commutative(configs(state.hooks), without);
    vstd::seq_lib::lemma_multiset_commutative(waiting(state.deferred), with);
    lemma_split(resolved);
    assert(accounted(next, manifests) =~= accounted(state, manifests));
}

/// What an event adds was accounted for before.
proof fn lemma_added_accounted(
    state: PreparationView,
    event: EventView,
    manifests: spec_fn(int) -> Seq<ManifestHookView>,
)
    requires
        prepare::sound(state),
        prepare::awaited(state, event),
        reads(event, manifests),
        failure(state, event) is None,
    ensures
        accounted(added(state, event), manifests) == accounted(state, manifests),
{
    match event {
        EventView::Repo { repo, stored } => {
            lemma_repo_added_accounted(state, repo, stored->Ok_0.path, manifests);
        },
        EventView::Environment { task, .. } => {
            let next = added(state, event);
            let k = prepare::tasks(state.deferred).index_of(task);
            let hook = state.deferred[k].hook;
            assert(waiting(next.deferred) =~= waiting(state.deferred).remove(k));
            vstd::seq_lib::to_multiset_remove(waiting(state.deferred), k);
            waiting(state.deferred).to_multiset_ensures();
            assert(waiting(state.deferred)[k] == hook);
            assert(waiting(state.deferred).contains(hook));
            assert(configs(next.hooks) =~= configs(state.hooks).push(hook));
            vstd::seq_lib::to_multiset_build(configs(state.hooks), hook);
            assert(accounted(next, manifests) =~= accounted(state, manifests));
        },
        EventView::Local { path } => {
            lemma_local_added_accounted(state, path->Ok_0, manifests);
        },
    }
}

proof fn lemma_started_accounted(
    config: ConfigWireView,
    manifests: spec_fn(int) -> Seq<ManifestHookView>,
    n: nat,
)
    requires
        n <= config.repos.len(),
    ensures
        owed(prepare::remote_positions(config.repos.take(n as int)), config, manifests).add(
            with_defaults(
                prepare::local_hooks(config.repos.take(n as int)),
                config,
            ).to_multiset(),
        ) == hooks_of_repos(config, manifests, n).to_multiset(),
    decreases n,
{
    let repos = config.repos.take(n as int);
    let positions = prepare::remote_positions(repos);
    let locals = with_defaults(prepare::local_hooks(repos), config);
    if n == 0 {
        assert(locals =~= Seq::<ManifestHookView>::empty());
        assert(Seq::<ManifestHookView>::empty().to_multiset() =~= Multiset::empty()) by {
            Seq::<ManifestHookView>::empty().to_multiset_ensures();
        }
        assert(owed(positions, config, manifests).add(locals.to_multiset()) =~= hooks_of_repos(
            config,
            manifests,
            n,
        ).to_multiset());
    } else {
        let m = (n - 1) as nat;
        lemma_started_accounted(config, manifests, m);
        assert(repos.drop_last() =~= config.repos.take(m as int));
        let before = hooks_of_repos(config, manifests, m);
        let more = hooks_of_repo(config, manifests, m as int);
        vstd::seq_lib::lemma_multiset_commutative(before, more);
        let positions_before = prepare::remote_positions(config.repos.take(m as int));
        let locals_before = with_defaults(
            prepare::local_hooks(config.repos.take(m as int)),
            config,
        );
        match config.repos[m as int] {
            ConfigRepoView::Remote(_) => {
                assert(positions.drop_last() =~= positions_before);
            },
            ConfigRepoView::Local(hooks) => {
                assert(locals =~= locals_before + more);
                vstd::seq_lib::lemma_multiset_commutative(locals_before, more);
            },
            ConfigRepoView::Meta => {
                assert(Seq::<ManifestHookView>::empty().to_multiset() =~= Multiset::empty()) by {
                    Seq::<ManifestHookView>::empty().to_multiset_ensures();
                }
            },
        }
        assert(owed(positions, config, manifests).add(locals.to_multiset()) =~= hooks_of_repos(
            config,
            manifests,
            n,
        ).to_multiset());
    }
}

/// The local hooks that a project is configured with, with its defaults.
pub open spec fn configured_locals(config: ConfigWireView) -> Seq<ManifestHookView> {
    with_defaults(prepare::local_hooks(config.repos), config)
}

/// Whether a hook has a path exactly if it needs one.
pub open spec fn path_as_needed(hook: HookView) -> bool {
    hook.path is Some <==> language::needs_environment(hook.config.language)
}

/// Whether a hook of a remote repository has a path: with additional dependencies always,
/// else exactly if it needs one.
pub open spec fn remote_path_as_needed(hook: HookView) -> bool {
    if prepare::has_dependencies(hook.config) {
        hook.path is Some
    } else {
        path_as_needed(hook)
    }
}

/// Whether `hooks` ends in those of the local hooks that are no longer among `locals`.
spec fn ends_in_locals(
    hooks: Seq<HookView>,
    locals: Seq<ManifestHookView>,
    config: ConfigWireView,
) -> bool {
    let all = prepare::local_hooks(config.repos);
    let ready = all.len() - locals.len();
    &&& 0 <= ready <= hooks.len()
    &&& locals == all.skip(ready)
    &&& configs(hooks).skip(hooks.len() - ready) == with_defaults(all, config).take(ready)
    &&& forall|i: int|
        0 <= i < hooks.len() - ready ==> remote_path_as_needed(#[trigger] hooks[i])
    &&& forall|i: int| hooks.len() - ready <= i < hooks.len() ==> path_as_needed(#[trigger] hooks[i])
}

/// What holds of a state before a preparation goes on from it.
spec fn between(state: PreparationView, config: ConfigWireView) -> bool {
    &&& prepare::sound(
        PreparationView {
            phase: if state.phase == Phase::Locals {
                Phase::Done
            } else {
                state.phase
            },
            ..state
        },
    )
    &&& state.config == config
    &&& state.phase != Phase::Done
    &&& state.phase != Phase::Repos ==> state.repos.len() == 0
    &&& state.phase == Phase::Locals ==> state.deferred.len() == 0
    &&& state.phase != Phase::Locals ==> state.locals == prepare::local_hooks(config.repos)
    &&& ends_in_locals(state.hooks, state.locals, config)
}

/// What holds of a preparation at every time.
spec fn in_order(now: (PreparationView, ActionView), config: ConfigWireView) -> bool {
    let state = now.0;
    &&& prepare::sound(state)
    &&& state.config == config
    &&& match now.1 {
        ActionView::Fail(_) => state.phase == Phase::Done,
        ActionView::Finish(hooks) => {
            &&& state.phase == Phase::Done
            &&& state.hooks.len() == 0
            &&& state.repos.len() == 0
            &&& state.deferred.len() == 0
            &&& state.locals.len() == 0
            &&& ends_in_locals(hooks, state.locals, config)
        },
        _ => {
            &&& between(state, config)
            &&& state.phase == Phase::Repos ==> state.repos.len() > 0
            &&& state.phase == Phase::Environments ==> state.deferred.len() > 0
        },
    }
}

proof fn lemma_local_added(state: PreparationView, path: Seq<char>, config: ConfigWireView)
    requires
        state.locals.len() > 0,
        state.config == config,
        ends_in_locals(state.hooks, state.locals, config),
    ensures
        ({
            let next = prepare::local_added(state, path);
            ends_in_locals(next.hooks, next.locals, config)
        }),
{
    let next = prepare::local_added(state, path);
    let hook = prepare::first_local(state);
    let all = prepare::local_hooks(config.repos);
    let ready = all.len() - state.locals.len();
    let hooks = state.hooks;
    assert(state.locals[0] == all[ready]);
    assert(next.locals =~= all.skip(ready + 1));
    let tail = configs(hooks).skip(hooks.len() - ready);
    assert(configs(next.hooks).skip(next.hooks.len() - (ready + 1)) =~= tail.push(hook));
    assert(with_defaults(all, config).take(ready + 1) =~= with_defaults(all, config).take(
        ready,
    ).push(hook));
}

proof fn lemma_next_local_in_order(state: PreparationView, config: ConfigWireView)
    requires
        prepare::sound(PreparationView { phase: Phase::Done, ..state }),
        state.config == config,
        state.repos.len() == 0,
        state.deferred.len() == 0,
        ends_in_locals(state.hooks, state.locals, config),
    ensures
        in_order(prepare::next_local(state), config),
        !(prepare::next_local(state).1 is Fail),
        prepare::next_local(state).0.locals.len() <= state.locals.len(),
    decreases state.locals.len(),
{
    if state.locals.len() > 0 && !language::needs_environment(
        prepare::first_local(state).language,
    ) {
        lemma_local_added(state, Seq::empty(), config);
        lemma_next_local_in_order(prepare::local_added(state, Seq::empty()), config);
    }
}

proof fn lemma_gone_on_in_order(state: PreparationView, config: ConfigWireView)
    requires
        between(state, config),
    ensures
        in_order(gone_on(state), config),
        !(gone_on(state).1 is Fail),
        gone_on(state).0.repos == state.repos,
        gone_on(state).0.deferred.len() == state.deferred.len(),
        gone_on(state).0.locals.len() <= state.locals.len(),
        gone_on(state).0.phase == Phase::Repos ==> state.phase == Phase::Repos,
{
    let waits = state.phase == Phase::Repos && state.repos.len() > 0 || state.phase
        != Phase::Locals && state.deferred.len() > 0;
    if !waits {
        lemma_next_local_in_order(state, config);
        lemma_next_local_leaves(state);
    }
}

proof fn lemma_next_local_leaves(state: PreparationView)
    ensures
        prepare::next_local(state).0.repos == state.repos,
        prepare::next_local(state).0.deferred == state.deferred,
        prepare::next_local(state).0.phase != Phase::Repos,
        prepare::next_local(state).0.phase != Phase::Environments,
        prepare::next_local(state).0.phase == Phase::Locals <==> prepare::next_local(
            state,
        ).1 is PrepareLocal,
        prepare::next_local(state).1 matches ActionView::PrepareLocal(hook) ==> hook
            == prepare::first_local(prepare::next_local(state).0),
        !(prepare::next_local(state).1 is PrepareRepos),
        !(prepare::next_local(state).1 is PrepareEnvironments),
    decreases state.locals.len(),
{
    if state.locals.len() > 0 && !language::needs_environment(
        prepare::first_local(state).language,
    ) {
        lemma_next_local_leaves(prepare::local_added(state, Seq::empty()));
    }
}

proof fn lemma_started_in_order(config: ConfigWireView)
    ensures
        between(prepare::initial(config), config),
        in_order(prepare::started(config), config),
{
    let state = prepare::initial(config);
    prepare::lemma_remote_positions(config.repos);
    assert(prepare::tasks(state.deferred) =~= Seq::<int>::empty());
    assert(state.locals =~= state.locals.skip(0));
    assert(configs(state.hooks).skip(0) =~= configured_locals(config).take(0));
    lemma_gone_on_in_order(state, config);
}

/// Hooks that are put behind others leave the local hooks, of which there are none yet.
proof fn lemma_more_ready(hooks: Seq<HookView>, more: Seq<HookView>, config: ConfigWireView)
    requires
        ends_in_locals(hooks, prepare::local_hooks(config.repos), config),
        forall|i: int| 0 <= i < more.len() ==> remote_path_as_needed(#[trigger] more[i]),
    ensures
        ends_in_locals(hooks + more, prepare::local_hooks(config.repos), config),
{
    let locals = prepare::local_hooks(config.repos);
    let now = hooks + more;
    assert(configs(now).skip(now.len() as int) =~= configured_locals(config).take(0));
    assert(locals =~= locals.skip(0));
}

/// Of what is ready nothing has additional dependencies, and what is deferred has.
proof fn lemma_ready_and_deferred(
    resolved: Seq<ManifestHookView>,
    path: Seq<char>,
    repo: int,
    task: int,
)
    ensures
        forall|i: int|
            0 <= i < prepare::ready_hooks(resolved, path).len() ==> !prepare::has_dependencies(
                (#[trigger] prepare::ready_hooks(resolved, path)[i]).config,
            ),
        forall|k: int|
            0 <= k < prepare::deferred_hooks(resolved, repo, task).len()
                ==> prepare::has_dependencies(
                (#[trigger] prepare::deferred_hooks(resolved, repo, task)[k]).hook,
            ),
{
    let ready = prepare::ready_hooks(resolved, path);
    let later = prepare::deferred_hooks(resolved, repo, task);
    assert forall|i: int| 0 <= i < ready.len() implies !prepare::has_dependencies(
        (#[trigger] ready[i]).config,
    ) by {
        seqs::lemma_filter_keeps(
            resolved,
            |h: ManifestHookView| !prepare::has_dependencies(h),
            i,
        );
    }
    assert forall|k: int| 0 <= k < later.len() implies prepare::has_dependencies(
        (#[trigger] later[k]).hook,
    ) by {
        seqs::lemma_filter_keeps(resolved, |h: ManifestHookView| prepare::has_dependencies(h), k);
    }
}

proof fn lemma_added_in_order(
    now: (PreparationView, ActionView),
    event: EventView,
    config: ConfigWireView,
)
    requires
        in_order(now, config),
        prepare::awaited(now.0, event),
        failure(now.0, event) is None,
    ensures
        between(added(now.0, event), config),
{
    let state = now.0;
    let next = added(state, event);
    match event {
        EventView::Repo { repo, stored } => {
            let stored = stored->Ok_0;
            let resolved = prepare::taken_from(config, repo, stored.manifest->Ok_0);
            let ready = prepare::ready_hooks(resolved, stored.path);
            lemma_ready_and_deferred(resolved, stored.path, repo, state.deferred.len() as int);
            lemma_more_ready(state.hooks, ready, config);
            prepare::lemma_remove_keeps_distinct(state.repos, state.repos.index_of(repo));
            assert(prepare::sound(next));
        },
        EventView::Environment { task, .. } => {
            let k = prepare::tasks(state.deferred).index_of(task);
            let ready = next.hooks.last();
            lemma_more_ready(state.hooks, seq![ready], config);
            assert(state.hooks + seq![ready] =~= next.hooks);
            prepare::lemma_remove_keeps_distinct(prepare::tasks(state.deferred), k);
            assert(prepare::tasks(next.deferred) =~= prepare::tasks(state.deferred).remove(k));
        },
        EventView::Local { path } => {
            lemma_local_added(state, path->Ok_0, config);
        },
    }
}

proof fn lemma_after_in_order(config: ConfigWireView, events: Seq<EventView>)
    requires
        possible(config, events),
    ensures
        in_order(after(config, events), config),
    decreases events.len(),
{
    if events.len() == 0 {
        lemma_started_in_order(config);
    } else {
        let before = after(config, events.drop_last());
        lemma_after_in_order(config, events.drop_last());
        lemma_stepped(before.0, events.last());
        if failure(before.0, events.last()) is None {
            lemma_added_in_order(before, events.last(), config);
            lemma_gone_on_in_order(added(before.0, events.last()), config);
        }
    }
}

proof fn lemma_after_accounted(
    config: ConfigWireView,
    events: Seq<EventView>,
    manifests: spec_fn(int) -> Seq<ManifestHookView>,
)
    requires
        possible(config, events),
        forall|i: int| 0 <= i < events.len() ==> reads(#[trigger] events[i], manifests),
        !(after(config, events).1 is Fail),
    ensures
        accounted_with(after(config, events), manifests) == configured_hooks(
            config,
            manifests,
        ).to_multiset(),
    decreases events.len(),
{
    if events.len() == 0 {
        let state = prepare::initial(config);
        lemma_started_accounted(config, manifests, config.repos.len());
        assert(config.repos.take(config.repos.len() as int) =~= config.repos);
        assert(configs(state.hooks) =~= Seq::<ManifestHookView>::empty());
        assert(waiting(state.deferred) =~= Seq::<ManifestHookView>::empty());
        assert(Seq::<ManifestHookView>::empty().to_multiset() =~= Multiset::empty()) by {
            Seq::<ManifestHookView>::empty().to_multiset_ensures();
        }
        assert(accounted(state, manifests) =~= configured_hooks(config, manifests).to_multiset());
        lemma_next_local_accounted(state, manifests);
    } else {
        let before = events.drop_last();
        assert forall|i: int| 0 <= i < before.len() implies reads(
            #[trigger] before[i],
            manifests,
        ) by {
            assert(before[i] == events[i]);
        }
        let state = after(config, before).0;
        lemma_after_in_order(config, before);
        lemma_after_accounted(config, before, manifests);
        assert(reads(events[events.len() - 1], manifests));
        lemma_stepped(state, events.last());
        lemma_added_accounted(state, events.last(), manifests);
        lemma_next_local_accounted(added(state, events.last()), manifests);
    }
}

/// Every hook that a project is configured with is prepared exactly once, and nothing else
/// is, in whatever order the pieces of work end.
pub proof fn every_configured_hook_is_prepared_once(
    config: ConfigWireView,
    events: Seq<EventView>,
    manifests: spec_fn(int) -> Seq<ManifestHookView>,
)
    requires
        possible(config, events),
        forall|i: int| 0 <= i < events.len() ==> reads(#[trigger] events[i], manifests),
        after(config, events).1 is Finish,
    ensures
        ({
            let hooks = after(config, events).1->Finish_0;
            let configured = configured_hooks(config, manifests);
            &&& configs(hooks).to_multiset() == configured.to_multiset()
            &&& hooks.len() == configured.len()
        }),
{
    let now = after(config, events);
    let hooks = now.1->Finish_0;
    lemma_after_in_order(config, events);
    lemma_after_accounted(config, events, manifests);
    let none = Seq::<ManifestHookView>::empty();
    assert(none.to_multiset() =~= Multiset::empty()) by {
        none.to_multiset_ensures();
    }
    assert(configs(now.0.hooks) =~= none);
    assert(waiting(now.0.deferred) =~= none);
    assert(with_defaults(now.0.locals, config) =~= none);
    assert(accounted_with(now, manifests) =~= configs(hooks).to_multiset());
    vstd::seq_lib::to_multiset_len(configs(hooks));
    vstd::seq_lib::to_multiset_len(configured_hooks(config, manifests));
}

/// In what order the pieces of work end decides the order of the hooks at most: two
/// preparations of one project that read the same manifests prepare the same hooks.
pub proof fn the_order_of_events_changes_no_hook(
    config: ConfigWireView,
    first: Seq<EventView>,
    second: Seq<EventView>,
    manifests: spec_fn(int) -> Seq<ManifestHookView>,
)
    requires
        possible(config, first),
        possible(config, second),
        forall|i: int| 0 <= i < first.len() ==> reads(#[trigger] first[i], manifests),
        forall|i: int| 0 <= i < second.len() ==> reads(#[trigger] second[i], manifests),
        after(config, first).1 is Finish,
        after(config, second).1 is Finish,
    ensures
        configs(after(config, first).1->Finish_0).to_multiset() == configs(
            after(config, second).1->Finish_0,
        ).to_multiset(),
{
    every_configured_hook_is_prepared_once(config, first, manifests);
    every_configured_hook_is_prepared_once(config, second, manifests);
}

/// The local hooks come last, in the order of the configuration, and each of them has a path
/// exactly if its language needs an environment. So has each hook before them, but for those
/// with additional dependencies, which all have one.
pub proof fn local_hooks_come_last(config: ConfigWireView, events: Seq<EventView>)
    requires
        possible(config, events),
        after(config, events).1 is Finish,
    ensures
        ({
            let hooks = after(config, events).1->Finish_0;
            let locals = configured_locals(config);
            let from = hooks.len() - locals.len();
            &&& 0 <= from
            &&& configs(hooks).skip(from) == locals
            &&& forall|i: int| 0 <= i < from ==> remote_path_as_needed(#[trigger] hooks[i])
            &&& forall|i: int| from <= i < hooks.len() ==> path_as_needed(#[trigger] hooks[i])
        }),
{
    lemma_after_in_order(config, events);
    let locals = configured_locals(config);
    assert(locals.take(locals.len() as int) =~= locals);
}

/// The path of a prepared hook without additional dependencies is `None` exactly if the hook
/// needs no environment. A hook with additional dependencies may have a path that it does not
/// need, but has none only if it needs none.
pub proof fn a_hook_has_a_path_as_needed(config: ConfigWireView, events: Seq<EventView>)
    requires
        possible(config, events),
        after(config, events).1 is Finish,
    ensures
        ({
            let hooks = after(config, events).1->Finish_0;
            forall|i: int|
                0 <= i < hooks.len() ==> {
                    let hook = #[trigger] hooks[i];
                    let needed = language::needs_environment(hook.config.language);
                    &&& hook.path is None ==> !needed
                    &&& !prepare::has_dependencies(hook.config) ==> (hook.path is None <==> !needed)
                }
        }),
{
    lemma_after_in_order(config, events);
    let hooks = after(config, events).1->Finish_0;
    let from = hooks.len() - configured_locals(config).len();
    assert forall|i: int| 0 <= i < hooks.len() implies {
        let hook = #[trigger] hooks[i];
        let needed = language::needs_environment(hook.config.language);
        &&& hook.path is None ==> !needed
        &&& !prepare::has_dependencies(hook.config) ==> (hook.path is None <==> !needed)
    } by {
        if i < from {
            assert(remote_path_as_needed(hooks[i]));
        } else {
            assert(path_as_needed(hooks[i]));
        }
    }
}

/// A preparation comes to sound states only.
pub proof fn every_state_is_sound(config: ConfigWireView, events: Seq<EventView>)
    requires
        possible(config, events),
    ensures
        prepare::sound(after(config, events).0),
        after(config, events).0.config == config,
{
    lemma_after_in_order(config, events);
}

/// A preparation is over exactly when it has handed out the hooks or has failed: then it
/// waits for nothing more, and before it waits for something.
pub proof fn a_preparation_waits_until_it_is_over(config: ConfigWireView, events: Seq<EventView>)
    requires
        possible(config, events),
    ensures
        ({
            let now = after(config, events);
            let over = now.1 is Finish || now.1 is Fail;
            &&& over ==> forall|event: EventView| !#[trigger] prepare::awaited(now.0, event)
            &&& !over ==> exists|event: EventView| #[trigger] prepare::awaited(now.0, event)
        }),
{
    let now = after(config, events);
    lemma_after_in_order(config, events);
    if !(now.1 is Finish || now.1 is Fail) {
        if now.0.phase == Phase::Repos {
            let event = EventView::Repo { repo: now.0.repos[0], stored: Err(Seq::empty()) };
            assert(prepare::awaited(now.0, event));
        } else if now.0.phase == Phase::Environments {
            let task = prepare::tasks(now.0.deferred)[0];
            let event = EventView::Environment { task, path: Err(Seq::empty()) };
            assert(prepare::awaited(now.0, event));
        } else {
            let event = EventView::Local { path: Err(Seq::empty()) };
            assert(prepare::awaited(now.0, event));
        }
    }
}

/// An event ends a preparation in failure exactly if its outcome cannot be used, and then
/// with that error.
pub proof fn a_preparation_fails_exactly_on_a_failure(
    config: ConfigWireView,
    events: Seq<EventView>,
    event: EventView,
)
    requires
        possible(config, events.push(event)),
    ensures
        match failure(after(config, events).0, event) {
            Some(error) => after(config, events.push(event)).1 == ActionView::Fail(error),
            None => !(after(config, events.push(event)).1 is Fail),
        },
{
    assert(events.push(event).drop_last() =~= events);
    let now = after(config, events);
    lemma_after_in_order(config, events);
    lemma_stepped(now.0, event);
    if failure(now.0, event) is None {
        lemma_added_in_order(now, event, config);
        lemma_gone_on_in_order(added(now.0, event), config);
    }
}

/// Whether the repository that `event` reports, if it reports one, was stored and loads: the
/// project names it by a URL, and its manifest, which was read, offers the hooks that
/// `manifests` has at its position.
pub open spec fn loads(
    config: ConfigWireView,
    event: EventView,
    manifests: spec_fn(int) -> Seq<ManifestHookView>,
) -> bool {
    match event {
        EventView::Repo { repo, stored } => {
            &&& stored matches Ok(stored)
            &&& stored.manifest matches Ok(hooks)
            &&& hooks == manifests(repo)
            &&& hook::parsed_url(config.repos[repo]->Remote_0.repo) is Ok
        },
        _ => true,
    }
}

/// Whether the project asks the remote repository at the position `index` for a hook that this
/// does not offer.
pub open spec fn lacks(
    config: ConfigWireView,
    index: int,
    manifests: spec_fn(int) -> Seq<ManifestHookView>,
) -> bool {
    &&& 0 <= index < config.repos.len()
    &&& config.repos[index] is Remote
    &&& prepare::first_missing(manifests(index), config.repos[index]->Remote_0.hooks) is Some
}

/// As long as a preparation has not failed, a repository that lacks a hook is waited for, and
/// as long as repositories are waited for, nothing else was reported.
proof fn lemma_lacking_is_awaited(
    config: ConfigWireView,
    events: Seq<EventView>,
    manifests: spec_fn(int) -> Seq<ManifestHookView>,
)
    requires
        possible(config, events),
        forall|i: int| 0 <= i < events.len() ==> loads(config, #[trigger] events[i], manifests),
        !(after(config, events).1 is Fail),
    ensures
        forall|index: int| #[trigger]
            lacks(config, index, manifests) ==> after(config, events).0.repos.contains(index),
        after(config, events).0.phase == Phase::Repos ==> forall|i: int|
            0 <= i < events.len() ==> #[trigger] events[i] is Repo,
    decreases events.len(),
{
    if events.len() == 0 {
        let state = prepare::initial(config);
        lemma_started_in_order(config);
        lemma_gone_on_in_order(state, config);
        prepare::lemma_remote_positions(config.repos);
        assert(after(config, events).0.repos == state.repos);
    } else {
        let before = events.drop_last();
        let event = events.last();
        let now = after(config, before);
        assert forall|i: int| 0 <= i < before.len() implies loads(
            config,
            #[trigger] before[i],
            manifests,
        ) by {
            assert(before[i] == events[i]);
        }
        lemma_after_in_order(config, before);
        lemma_stepped(now.0, event);
        lemma_lacking_is_awaited(config, before, manifests);
        lemma_added_in_order(now, event, config);
        lemma_gone_on_in_order(added(now.0, event), config);
        let next = added(now.0, event);
        assert forall|index: int| #[trigger]
            lacks(config, index, manifests) implies next.repos.contains(index) by {
            if let EventView::Repo { repo, .. } = event {
                assert(loads(config, events[events.len() - 1], manifests));
                let k = now.0.repos.index_of(repo);
                let i = now.0.repos.index_of(index);
                assert(index != repo);
                assert(next.repos[if i < k {
                    i
                } else {
                    i - 1
                }] == index);
            }
        }
        if after(config, events).0.phase == Phase::Repos {
            assert forall|i: int| 0 <= i < events.len() implies #[trigger] events[i] is Repo by {
                if i < before.len() {
                    assert(before[i] is Repo);
                }
            }
        }
    }
}

/// Where every repository that was reported was stored and loads, a preparation that is over
/// has failed for want of a hook exactly if the project asks some remote repository for a hook
/// that this does not offer. Then only repositories were reported, and the error names the
/// last of them and the first hook that this does not offer.
pub proof fn a_missing_hook_fails_the_preparation(
    config: ConfigWireView,
    events: Seq<EventView>,
    manifests: spec_fn(int) -> Seq<ManifestHookView>,
)
    requires
        possible(config, events),
        forall|i: int| 0 <= i < events.len() ==> loads(config, #[trigger] events[i], manifests),
        after(config, events).1 is Finish || after(config, events).1 is Fail,
    ensures
        (after(config, events).1 matches ActionView::Fail(error) && error is HookNotFound)
            <==> exists|index: int| #[trigger] lacks(config, index, manifests),
        (exists|index: int| #[trigger] lacks(config, index, manifests)) ==> {
            &&& events.len() > 0
            &&& forall|i: int| 0 <= i < events.len() ==> #[trigger] events[i] is Repo
            &&& ({
                let last = events.last()->repo;
                let wanted = config.repos[last]->Remote_0;
                &&& lacks(config, last, manifests)
                &&& after(config, events).1 == ActionView::Fail(
                    ErrorView::HookNotFound {
                        hook: prepare::first_missing(manifests(last), wanted.hooks)->0,
                        repo: hook::parsed_url(wanted.repo)->Ok_0 + "@"@ + wanted.rev,
                    },
                )
            })
        },
{
    lemma_after_in_order(config, events);
    if after(config, events).1 is Finish {
        lemma_lacking_is_awaited(config, events, manifests);
    } else {
        if events.len() == 0 {
            lemma_started_in_order(config);
            lemma_gone_on_in_order(prepare::initial(config), config);
        }
        let before = events.drop_last();
        let event = events.last();
        let now = after(config, before);
        lemma_after_in_order(config, before);
        lemma_stepped(now.0, event);
        assert forall|i: int| 0 <= i < before.len() implies loads(
            config,
            #[trigger] before[i],
            manifests,
        ) by {
            assert(before[i] == events[i]);
        }
        assert(loads(config, events[events.len() - 1], manifests));
        lemma_lacking_is_awaited(config, before, manifests);
        if failure(now.0, event) is None {
            lemma_added_in_order(now, event, config);
            lemma_gone_on_in_order(added(now.0, event), config);
        }
        if event is Repo {
            assert(lacks(config, event->repo, manifests));
            assert forall|i: int| 0 <= i < events.len() implies #[trigger] events[i] is Repo by {
                if i < before.len() {
                    assert(before[i] is Repo);
                }
            }
        }
    }
}

/// Every event that does not end in failure leaves less to wait for: fewer repositories, or
/// as many of them and fewer deferred hooks, or as many of both and fewer local hooks. So
/// a preparation comes to an end.
pub proof fn every_event_leaves_less_to_wait_for(
    config: ConfigWireView,
    events: Seq<EventView>,
    event: EventView,
)
    requires
        possible(config, events.push(event)),
        !(after(config, events.push(event)).1 is Fail),
    ensures
        ({
            let before = after(config, events).0;
            let now = after(config, events.push(event)).0;
            ||| now.repos.len() < before.repos.len()
            ||| now.repos.len() == before.repos.len() && now.deferred.len() < before.deferred.len()
            ||| now.repos.len() == before.repos.len() && now.deferred.len() == before.deferred.len()
                && now.locals.len() < before.locals.len()
        }),
{
    assert(events.push(event).drop_last() =~= events);
    let now = after(config, events);
    lemma_after_in_order(config, events);
    lemma_stepped(now.0, event);
    lemma_added_in_order(now, event, config);
    lemma_gone_on_in_order(added(now.0, event), config);
}

/// The hooks that are ready with their remote repositories: in the order in which these were
/// stored, and for each in the order in which the project asks for them.
pub open spec fn direct(config: ConfigWireView, events: Seq<EventView>) -> Seq<HookView>
    decreases events.len(),
{
    if events.len() == 0 {
        Seq::empty()
    } else {
        let before = direct(config, events.drop_last());
        match events.last() {
            EventView::Repo { repo, stored } => before + prepare::ready_hooks(
                prepare::taken_from(config, repo, stored->Ok_0.manifest->Ok_0),
                stored->Ok_0.path,
            ),
            _ => before,
        }
    }
}

/// All hooks that were deferred, each at the place of its number.
pub open spec fn deferrals(config: ConfigWireView, events: Seq<EventView>) -> Seq<DeferredView>
    decreases events.len(),
{
    if events.len() == 0 {
        Seq::empty()
    } else {
        let before = deferrals(config, events.drop_last());
        match events.last() {
            EventView::Repo { repo, stored } => before + prepare::deferred_hooks(
                prepare::taken_from(config, repo, stored->Ok_0.manifest->Ok_0),
                repo,
                before.len() as int,
            ),
            _ => before,
        }
    }
}

/// The deferred hooks whose repositories were stored: in the order in which they were, and
/// each with the path that was reported for its number.
pub open spec fn delayed(deferred: Seq<DeferredView>, events: Seq<EventView>) -> Seq<HookView>
    decreases events.len(),
{
    if events.len() == 0 {
        Seq::empty()
    } else {
        let before = delayed(deferred, events.drop_last());
        match events.last() {
            EventView::Environment { task, path } => before.push(
                HookView { config: deferred[task].hook, path: Some(path->Ok_0) },
            ),
            _ => before,
        }
    }
}

/// The numbers of the deferred hooks whose repositories were stored, in the order in which they
/// were.
pub open spec fn reported(events: Seq<EventView>) -> Seq<int>
    decreases events.len(),
{
    if events.len() == 0 {
        Seq::empty()
    } else {
        let before = reported(events.drop_last());
        match events.last() {
            EventView::Environment { task, .. } => before.push(task),
            _ => before,
        }
    }
}

/// The paths that were reported for local hooks, in their order.
pub open spec fn local_paths(events: Seq<EventView>) -> Seq<Seq<char>>
    decreases events.len(),
{
    if events.len() == 0 {
        Seq::empty()
    } else {
        let before = local_paths(events.drop_last());
        match events.last() {
            EventView::Local { path } => before.push(path->Ok_0),
            _ => before,
        }
    }
}

/// How many of the first `n` of `hooks` need an environment.
pub open spec fn environments(hooks: Seq<ManifestHookView>, n: nat) -> nat
    decreases n,
{
    if n == 0 {
        0
    } else if language::needs_environment(hooks[n - 1].language) {
        environments(hooks, (n - 1) as nat) + 1
    } else {
        environments(hooks, (n - 1) as nat)
    }
}

/// The first `n` of the local hooks `hooks`: those that need an environment have the paths
/// `paths`, one after the other.
pub open spec fn placed_locals(
    hooks: Seq<ManifestHookView>,
    n: nat,
    paths: Seq<Seq<char>>,
) -> Seq<HookView> {
    Seq::new(n, |i: int| prepare::placed(hooks[i], paths[environments(hooks, i as nat) as int]))
}

/// The hooks that a preparation has or hands out.
spec fn ready_now(now: (PreparationView, ActionView)) -> Seq<HookView> {
    match now.1 {
        ActionView::Finish(hooks) => hooks,
        _ => now.0.hooks,
    }
}

/// What the hooks of a preparation are, at every time.
spec fn follows(
    now: (PreparationView, ActionView),
    config: ConfigWireView,
    events: Seq<EventView>,
) -> bool {
    let state = now.0;
    let locals = configured_locals(config);
    let ready = locals.len() - state.locals.len();
    let deferred = deferrals(config, events);
    &&& state.config == config
    &&& 0 <= ready
    &&& state.locals == prepare::local_hooks(config.repos).skip(ready)
    &&& local_paths(events).len() == environments(locals, ready as nat)
    &&& ready_now(now) == direct(config, events) + delayed(deferred, events) + placed_locals(
        locals,
        ready as nat,
        local_paths(events),
    )
    &&& state.phase == Phase::Repos ==> {
        &&& state.deferred == deferred
        &&& delayed(deferred, events).len() == 0
        &&& reported(events).len() == 0
    }
    &&& reported(events).no_duplicates()
    &&& forall|task: int| #[trigger]
        reported(events).contains(task) <==> 0 <= task < deferred.len() && !prepare::tasks(
            state.deferred,
        ).contains(task)
    &&& state.phase == Phase::Repos || state.phase == Phase::Environments ==> ready == 0
    &&& forall|k: int|
        0 <= k < state.deferred.len() ==> {
            let task = (#[trigger] state.deferred[k]).task;
            0 <= task < deferred.len() && state.deferred[k] == deferred[task]
        }
}

proof fn lemma_environments_grow(hooks: Seq<ManifestHookView>, i: nat, n: nat)
    requires
        i < n,
        language::needs_environment(hooks[i as int].language),
    ensures
        environments(hooks, i) < environments(hooks, n),
    decreases n,
{
    if i < n - 1 {
        lemma_environments_grow(hooks, i, (n - 1) as nat);
    }
}

proof fn lemma_next_local_follows(
    state: PreparationView,
    config: ConfigWireView,
    events: Seq<EventView>,
)
    requires
        state.deferred.len() == 0,
        follows(
            (PreparationView { phase: Phase::Locals, ..state }, ActionView::Await),
            config,
            events,
        ),
    ensures
        follows(prepare::next_local(state), config, events),
    decreases state.locals.len(),
{
    if state.locals.len() > 0 {
        let hook = prepare::first_local(state);
        if !language::needs_environment(hook.language) {
            let next = prepare::local_added(state, Seq::empty());
            let locals = configured_locals(config);
            let ready = locals.len() - state.locals.len();
            let paths = local_paths(events);
            let all = prepare::local_hooks(config.repos);
            assert(state.locals[0] == all[ready]);
            assert(next.locals =~= all.skip(ready + 1));
            assert(locals[ready] == hook);
            assert(placed_locals(locals, (ready + 1) as nat, paths) =~= placed_locals(
                locals,
                ready as nat,
                paths,
            ).push(prepare::placed(hook, Seq::empty())));
            assert(next.hooks =~= direct(config, events) + delayed(
                deferrals(config, events),
                events,
            ) + placed_locals(locals, (ready + 1) as nat, paths));
            lemma_next_local_follows(next, config, events);
        }
    }
}

proof fn lemma_gone_on_follows(
    state: PreparationView,
    config: ConfigWireView,
    events: Seq<EventView>,
)
    requires
        between(state, config),
        follows((state, ActionView::Await), config, events),
    ensures
        follows(gone_on(state), config, events),
{
    let waits = state.phase == Phase::Repos && state.repos.len() > 0 || state.phase
        != Phase::Locals && state.deferred.len() > 0;
    if !waits {
        lemma_next_local_follows(state, config, events);
    }
}

/// How many deferred hooks are ready does not depend on which hooks they are.
proof fn lemma_delayed_len(
    one: Seq<DeferredView>,
    other: Seq<DeferredView>,
    events: Seq<EventView>,
)
    ensures
        delayed(one, events).len() == delayed(other, events).len(),
    decreases events.len(),
{
    if events.len() > 0 {
        lemma_delayed_len(one, other, events.drop_last());
    }
}

/// What is reported next was not reported before, and is no longer waited for.
proof fn lemma_reported(
    deferred: Seq<DeferredView>,
    total: int,
    events: Seq<EventView>,
    task: int,
)
    requires
        prepare::tasks(deferred).no_duplicates(),
        prepare::tasks(deferred).contains(task),
        0 <= task < total,
        reported(events).no_duplicates(),
        forall|t: int| #[trigger]
            reported(events).contains(t) <==> 0 <= t < total && !prepare::tasks(
                deferred,
            ).contains(t),
    ensures
        ({
            let now = reported(events).push(task);
            let left = prepare::tasks(
                deferred.remove(prepare::tasks(deferred).index_of(task)),
            );
            &&& now.no_duplicates()
            &&& forall|t: int| #[trigger]
                now.contains(t) <==> 0 <= t < total && !left.contains(t)
        }),
{
    let before = reported(events);
    let now = before.push(task);
    let waiting = prepare::tasks(deferred);
    let k = waiting.index_of(task);
    let left = prepare::tasks(deferred.remove(k));
    assert(left =~= waiting.remove(k));
    assert(!before.contains(task));
    assert(now.no_duplicates()) by {
        assert forall|i: int, j: int| 0 <= i < j < now.len() implies now[i] != now[j] by {
            assert(before.contains(now[i]));
        }
    }
    assert forall|t: int| #[trigger]
        now.contains(t) <==> 0 <= t < total && !left.contains(t) by {
        if before.contains(t) {
            assert(now[before.index_of(t)] == t);
        }
        assert(now[before.len() as int] == task);
        if left.contains(t) {
            let i = left.index_of(t);
            assert(waiting[if i < k {
                i
            } else {
                i + 1
            }] == t);
        }
        if waiting.contains(t) && t != task {
            let i = waiting.index_of(t);
            assert(left[if i < k {
                i
            } else {
                i - 1
            }] == t);
        }
        if now.contains(t) && t != task {
            assert(before.contains(t)) by {
                let i = now.index_of(t);
                assert(before[i] == t);
            }
        }
    }
}

proof fn lemma_added_follows(
    now: (PreparationView, ActionView),
    config: ConfigWireView,
    events: Seq<EventView>,
    event: EventView,
)
    requires
        in_order(now, config),
        follows(now, config, events),
        prepare::awaited(now.0, event),
        failure(now.0, event) is None,
    ensures
        follows((added(now.0, event), ActionView::Await), config, events.push(event)),
{
    let state = now.0;
    let next = added(state, event);
    let more = events.push(event);
    assert(more.drop_last() =~= events);
    let locals = configured_locals(config);
    let ready = locals.len() - state.locals.len();
    let paths = local_paths(events);
    match event {
        EventView::Repo { repo, stored } => {
            lemma_delayed_len(deferrals(config, events), deferrals(config, more), events);
            assert(placed_locals(locals, 0, paths) =~= Seq::<HookView>::empty());
            assert(delayed(deferrals(config, events), events) =~= Seq::<HookView>::empty());
            assert(delayed(deferrals(config, more), more) =~= Seq::<HookView>::empty());
            assert(next.hooks =~= direct(config, more) + delayed(deferrals(config, more), more)
                + placed_locals(locals, 0, local_paths(more)));
            assert(next.deferred =~= deferrals(config, more));
            assert forall|task: int| 0 <= task < next.deferred.len() implies #[trigger]
                prepare::tasks(next.deferred).contains(task) by {
                assert(prepare::tasks(next.deferred)[task] == task);
            }
        },
        EventView::Environment { task, path } => {
            let k = prepare::tasks(state.deferred).index_of(task);
            assert(state.deferred[k].task == task);
            lemma_reported(state.deferred, deferrals(config, events).len() as int, events, task);
            assert(placed_locals(locals, 0, paths) =~= Seq::<HookView>::empty());
            assert(next.hooks =~= direct(config, more) + delayed(deferrals(config, more), more)
                + placed_locals(locals, 0, local_paths(more)));
        },
        EventView::Local { path } => {
            let hook = prepare::first_local(state);
            let all = prepare::local_hooks(config.repos);
            assert(state.locals[0] == all[ready]);
            assert(locals[ready] == hook);
            assert(next.locals =~= all.skip(ready + 1));
            let longer = paths.push(path->Ok_0);
            let placed = placed_locals(locals, (ready + 1) as nat, longer);
            assert forall|i: int| 0 <= i < ready implies placed[i] == placed_locals(
                locals,
                ready as nat,
                paths,
            )[i] by {
                if language::needs_environment(locals[i].language) {
                    lemma_environments_grow(locals, i as nat, ready as nat);
                }
            }
            assert(placed =~= placed_locals(locals, ready as nat, paths).push(
                prepare::placed(hook, path->Ok_0),
            ));
            assert(next.hooks =~= direct(config, more) + delayed(deferrals(config, more), more)
                + placed);
        },
    }
}

proof fn lemma_after_follows(config: ConfigWireView, events: Seq<EventView>)
    requires
        possible(config, events),
        !(after(config, events).1 is Fail),
    ensures
        follows(after(config, events), config, events),
    decreases events.len(),
{
    if events.len() == 0 {
        let state = prepare::initial(config);
        lemma_started_in_order(config);
        assert(state.locals =~= state.locals.skip(0));
        assert(placed_locals(configured_locals(config), 0, local_paths(events))
            =~= Seq::<HookView>::empty());
        assert(forall|task: int| !#[trigger] reported(events).contains(task));
        assert(follows((state, ActionView::Await), config, events));
        lemma_gone_on_follows(state, config, events);
    } else {
        let before = events.drop_last();
        let now = after(config, before);
        let event = events.last();
        assert(before.push(event) =~= events);
        lemma_after_in_order(config, before);
        lemma_stepped(now.0, event);
        lemma_after_follows(config, before);
        lemma_added_follows(now, config, before, event);
        lemma_added_in_order(now, event, config);
        lemma_gone_on_follows(added(now.0, event), config, events);
    }
}

/// Whether `event` reports that a piece of work succeeded.
pub open spec fn succeeded(event: EventView) -> bool {
    match event {
        EventView::Repo { stored, .. } => stored matches Ok(stored) && stored.manifest is Ok,
        EventView::Environment { path, .. } => path is Ok,
        EventView::Local { path } => path is Ok,
    }
}

/// A preparation that has not failed was told of successes only.
pub proof fn a_preparation_needs_every_success(config: ConfigWireView, events: Seq<EventView>)
    requires
        possible(config, events),
        !(after(config, events).1 is Fail),
    ensures
        forall|i: int| 0 <= i < events.len() ==> succeeded(#[trigger] events[i]),
    decreases events.len(),
{
    if events.len() > 0 {
        let before = events.drop_last();
        lemma_after_in_order(config, before);
        lemma_stepped(after(config, before).0, events.last());
        a_preparation_needs_every_success(config, before);
        assert forall|i: int| 0 <= i < events.len() implies succeeded(#[trigger] events[i]) by {
            if i < before.len() {
                assert(succeeded(before[i]));
            }
        }
    }
}

/// Which hooks a preparation hands out, with which paths and in which order: first, for one
/// remote repository after the other as they were stored, the hooks without additional
/// dependencies in the order in which they were asked for, with the path of their repository
/// if they need it; then the hooks with additional dependencies as they were stored, each with
/// the path that was reported for its number; then the local hooks in the order of the
/// configuration, with the paths that were reported for those that need one. Each number was
/// reported exactly once, and there are as many paths of local hooks as are needed.
pub proof fn the_hooks_follow_from_the_events(config: ConfigWireView, events: Seq<EventView>)
    requires
        possible(config, events),
        after(config, events).1 is Finish,
    ensures
        ({
            let locals = configured_locals(config);
            after(config, events).1->Finish_0 == direct(config, events) + delayed(
                deferrals(config, events),
                events,
            ) + placed_locals(locals, locals.len(), local_paths(events))
        }),
        reported(events).no_duplicates(),
        forall|task: int| #[trigger]
            reported(events).contains(task) <==> 0 <= task < deferrals(config, events).len(),
        local_paths(events).len() == environments(
            configured_locals(config),
            configured_locals(config).len(),
        ),
{
    lemma_after_in_order(config, events);
    lemma_after_follows(config, events);
}

/// The number of a deferred hook is its place among all that were deferred.
pub proof fn a_deferred_hook_stands_at_its_number(config: ConfigWireView, events: Seq<EventView>)
    ensures
        forall|k: int|
            0 <= k < deferrals(config, events).len() ==> {
                let deferred = #[trigger] deferrals(config, events)[k];
                deferred.task == k && prepare::has_dependencies(deferred.hook)
            },
    decreases events.len(),
{
    if events.len() > 0 {
        let before = deferrals(config, events.drop_last());
        a_deferred_hook_stands_at_its_number(config, events.drop_last());
        if let EventView::Repo { repo, stored } = events.last() {
            let resolved = prepare::taken_from(config, repo, stored->Ok_0.manifest->Ok_0);
            lemma_ready_and_deferred(resolved, stored->Ok_0.path, repo, before.len() as int);
        }
    }
}

proof fn lemma_direct_has_no_dependencies(config: ConfigWireView, events: Seq<EventView>)
    ensures
        forall|i: int|
            0 <= i < direct(config, events).len() ==> !prepare::has_dependencies(
                (#[trigger] direct(config, events)[i]).config,
            ),
    decreases events.len(),
{
    if events.len() > 0 {
        lemma_direct_has_no_dependencies(config, events.drop_last());
        if let EventView::Repo { repo, stored } = events.last() {
            let resolved = prepare::taken_from(config, repo, stored->Ok_0.manifest->Ok_0);
            lemma_ready_and_deferred(resolved, stored->Ok_0.path, repo, 0);
        }
    }
}

proof fn lemma_delayed_has_dependencies(config: ConfigWireView, events: Seq<EventView>)
    requires
        possible(config, events),
        !(after(config, events).1 is Fail),
    ensures
        ({
            let hooks = delayed(deferrals(config, events), events);
            forall|i: int|
                0 <= i < hooks.len() ==> prepare::has_dependencies((#[trigger] hooks[i]).config)
        }),
    decreases events.len(),
{
    if events.len() > 0 {
        let before = events.drop_last();
        let state = after(config, before).0;
        lemma_after_in_order(config, before);
        lemma_stepped(state, events.last());
        lemma_after_follows(config, before);
        lemma_delayed_has_dependencies(config, before);
        match events.last() {
            EventView::Repo { .. } => {
                lemma_delayed_len(deferrals(config, before), deferrals(config, events), before);
            },
            EventView::Environment { task, .. } => {
                let k = prepare::tasks(state.deferred).index_of(task);
                assert(state.deferred[k].task == task);
                a_deferred_hook_stands_at_its_number(config, before);
                assert(prepare::has_dependencies(deferrals(config, before)[task].hook));
            },
            EventView::Local { .. } => {},
        }
    }
}

/// Among the hooks of remote repositories, those with additional dependencies follow those
/// without.
pub proof fn hooks_with_dependencies_follow_those_without(
    config: ConfigWireView,
    events: Seq<EventView>,
)
    requires
        possible(config, events),
        after(config, events).1 is Finish,
    ensures
        ({
            let hooks = after(config, events).1->Finish_0;
            let from = hooks.len() - configured_locals(config).len();
            forall|i: int, j: int|
                0 <= i < j < from && prepare::has_dependencies((#[trigger] hooks[i]).config)
                    ==> prepare::has_dependencies((#[trigger] hooks[j]).config)
        }),
{
    the_hooks_follow_from_the_events(config, events);
    lemma_direct_has_no_dependencies(config, events);
    lemma_delayed_has_dependencies(config, events);
    let hooks = after(config, events).1->Finish_0;
    let from = hooks.len() - configured_locals(config).len();
    let first = direct(config, events);
    let then = delayed(deferrals(config, events), events);
    assert forall|i: int, j: int|
        0 <= i < j < from && prepare::has_dependencies(
            (#[trigger] hooks[i]).config,
        ) implies prepare::has_dependencies((#[trigger] hooks[j]).config) by {
        if i < first.len() {
            assert(hooks[i] == first[i]);
        } else {
            assert(hooks[j] == then[j - first.len()]);
        }
    }
}

/// More events leave the hooks that were ready before where they are.
proof fn lemma_direct_grows(config: ConfigWireView, events: Seq<EventView>, n: int)
    requires
        0 <= n <= events.len(),
    ensures
        direct(config, events.take(n)).is_prefix_of(direct(config, events)),
    decreases events.len() - n,
{
    if n == events.len() {
        assert(events.take(n) =~= events);
    } else {
        let less = direct(config, events.take(n));
        let more = direct(config, events.take(n + 1));
        let all = direct(config, events);
        assert(events.take(n + 1).drop_last() =~= events.take(n));
        lemma_direct_grows(config, events, n + 1);
        assert(less =~= more.take(less.len() as int));
        assert(less =~= all.take(less.len() as int));
    }
}

/// The hooks without additional dependencies that a project asks of one remote repository
/// stay together, in the order in which they are asked for: those that the event at the
/// position `i` made ready stand one after the other from `from` on.
pub proof fn the_hooks_of_a_repository_stay_together(
    config: ConfigWireView,
    events: Seq<EventView>,
    i: int,
) -> (from: int)
    requires
        possible(config, events),
        after(config, events).1 is Finish,
        0 <= i < events.len(),
        events[i] is Repo,
    ensures
        ({
            let hooks = after(config, events).1->Finish_0;
            let stored = events[i]->stored->Ok_0;
            let own = prepare::ready_hooks(
                prepare::taken_from(config, events[i]->repo, stored.manifest->Ok_0),
                stored.path,
            );
            0 <= from && from + own.len() <= hooks.len() && hooks.subrange(
                from,
                from + own.len(),
            ) == own
        }),
{
    let hooks = after(config, events).1->Finish_0;
    let before = direct(config, events.take(i));
    let with_own = direct(config, events.take(i + 1));
    the_hooks_follow_from_the_events(config, events);
    lemma_direct_grows(config, events, i + 1);
    assert(events.take(i + 1).drop_last() =~= events.take(i));
    assert(with_own =~= hooks.take(with_own.len() as int));
    let own = with_own.skip(before.len() as int);
    assert(hooks.subrange(before.len() as int, with_own.len() as int) =~= own);
    before.len() as int
}

/// Where a prepared hook comes from.
pub enum Source {
    /// An entry of the remote repository that an event reports, each by its position.
    Remote { event: int, entry: int },
    /// A hook of a local repository, each by its position.
    Local { repo: int, hook: int },
}

/// Whether a source is there.
pub open spec fn is_source(
    config: ConfigWireView,
    events: Seq<EventView>,
    source: Source,
) -> bool {
    match source {
        Source::Remote { event, entry } => {
            &&& 0 <= event < events.len()
            &&& events[event] is Repo
            &&& 0 <= events[event]->repo < config.repos.len()
            &&& config.repos[events[event]->repo] is Remote
            &&& 0 <= entry < config.repos[events[event]->repo]->Remote_0.hooks.len()
        },
        Source::Local { repo, hook } => {
            &&& 0 <= repo < config.repos.len()
            &&& config.repos[repo] is Local
            &&& 0 <= hook < config.repos[repo]->Local_0.len()
        },
    }
}

/// Whether `hook` is what its source asks for. From a remote repository: of each option what
/// the entry gives, else what the first hook of that id in the manifest gives, else the
/// project's default. From a local one: what is described there, with the project's defaults.
/// Its path is that of its source if it needs one.
pub open spec fn stems_from(
    config: ConfigWireView,
    events: Seq<EventView>,
    hook: HookView,
    source: Source,
) -> bool {
    let needed = language::needs_environment(hook.config.language);
    &&& is_source(config, events, source)
    &&& match source {
        Source::Remote { event, entry } => {
            let stored = events[event]->stored->Ok_0;
            let offered = stored.manifest->Ok_0;
            let wanted = config.repos[events[event]->repo]->Remote_0.hooks[entry];
            &&& events[event]->stored is Ok
            &&& stored.manifest is Ok
            &&& exists|at: int| #[trigger]
                prepare::is_first_with_id(offered, wanted.id, at) && config::is_as_asked_for(
                    hook.config,
                    offered[at],
                    wanted,
                    config,
                )
            &&& match hook.config.additional_dependencies {
                Some(_) => hook.path is Some,
                None => hook.path == if needed {
                    Some(stored.path)
                } else {
                    None
                },
            }
        },
        Source::Local { repo, hook: at } => {
            &&& config::has_defaults(hook.config, config.repos[repo]->Local_0[at], config)
            &&& hook.path is Some <==> needed
        },
    }
}

/// In which part of the prepared hooks a hook stands: first come those of remote repositories
/// without additional dependencies, then those with such, then the local ones.
pub open spec fn part(hook: HookView, source: Source) -> int {
    if source is Local {
        2
    } else if hook.config.additional_dependencies is Some {
        1
    } else {
        0
    }
}

/// Whether `one` comes before `other`: it was reported or is configured earlier, or stands
/// earlier in the same repository.
pub open spec fn precedes(one: Source, other: Source) -> bool {
    match (one, other) {
        (
            Source::Remote { event, entry },
            Source::Remote { event: later, entry: behind },
        ) => event < later || (event == later && entry < behind),
        (
            Source::Local { repo, hook },
            Source::Local { repo: later, hook: behind },
        ) => repo < later || (repo == later && hook < behind),
        _ => false,
    }
}

/// What a project gets from the remote repository that the event at the position `event`
/// reports.
spec fn taken(config: ConfigWireView, events: Seq<EventView>, event: int) -> Seq<
    ManifestHookView,
> {
    prepare::taken_from(
        config,
        events[event]->repo,
        events[event]->stored->Ok_0.manifest->Ok_0,
    )
}

/// What a project gets for an entry.
spec fn got(config: ConfigWireView, events: Seq<EventView>, source: Source) -> ManifestHookView {
    taken(config, events, source->event)[source->entry]
}

/// Whether a hook has additional dependencies, or has none.
spec fn by_dependencies(dependencies: bool) -> spec_fn(ManifestHookView) -> bool {
    if dependencies {
        |h: ManifestHookView| prepare::has_dependencies(h)
    } else {
        |h: ManifestHookView| !prepare::has_dependencies(h)
    }
}

/// The entries with additional dependencies, or those without, that the first `n` of `events`
/// report.
spec fn entry_sources(
    config: ConfigWireView,
    events: Seq<EventView>,
    n: int,
    dependencies: bool,
) -> Seq<Source>
    decreases n,
{
    if n <= 0 {
        Seq::empty()
    } else {
        let before = entry_sources(config, events, n - 1, dependencies);
        if events[n - 1] is Repo {
            before + seqs::positions(
                taken(config, events, n - 1),
                by_dependencies(dependencies),
            ).map_values(|entry: int| Source::Remote { event: n - 1, entry })
        } else {
            before
        }
    }
}

/// Whether `source` is an entry with additional dependencies, or one without, that one of the
/// first `n` of `events` reports.
spec fn is_entry(
    config: ConfigWireView,
    events: Seq<EventView>,
    n: int,
    dependencies: bool,
    source: Source,
) -> bool {
    &&& source is Remote
    &&& 0 <= source->event < n
    &&& events[source->event] is Repo
    &&& 0 <= source->entry < taken(config, events, source->event).len()
    &&& prepare::has_dependencies(got(config, events, source)) == dependencies
}

proof fn lemma_entry_sources(
    config: ConfigWireView,
    events: Seq<EventView>,
    n: int,
    dependencies: bool,
)
    requires
        0 <= n <= events.len(),
    ensures
        ({
            let sources = entry_sources(config, events, n, dependencies);
            &&& forall|source: Source|
                #![trigger sources.contains(source)]
                #![trigger is_entry(config, events, n, dependencies, source)]
                sources.contains(source) <==> is_entry(config, events, n, dependencies, source)
            &&& forall|i: int, j: int|
                0 <= i < j < sources.len() ==> precedes(
                    #[trigger] sources[i],
                    #[trigger] sources[j],
                )
        }),
    decreases n,
{
    let sources = entry_sources(config, events, n, dependencies);
    if n > 0 {
        let before = entry_sources(config, events, n - 1, dependencies);
        let hooks = taken(config, events, n - 1);
        let pred = by_dependencies(dependencies);
        let at = seqs::positions(hooks, pred);
        lemma_entry_sources(config, events, n - 1, dependencies);
        seqs::lemma_filter_picks(hooks, pred);
        assert forall|source: Source| sources.contains(source) implies is_entry(
            config,
            events,
            n,
            dependencies,
            source,
        ) by {
            let i = sources.index_of(source);
            if i < before.len() {
                assert(before.contains(before[i]));
            } else {
                assert(at.contains(at[i - before.len()]));
            }
        }
        assert forall|source: Source|
            is_entry(config, events, n, dependencies, source) implies sources.contains(source) by {
            if source->event < n - 1 {
                assert(is_entry(config, events, n - 1, dependencies, source));
                assert(before.contains(source));
                assert(sources[before.index_of(source)] == source);
            } else {
                assert(pred(hooks[source->entry]));
                assert(at.contains(source->entry));
                let k = at.index_of(source->entry);
                assert(sources[before.len() + k] == source);
            }
        }
        assert forall|i: int, j: int| 0 <= i < j < sources.len() implies precedes(
            #[trigger] sources[i],
            #[trigger] sources[j],
        ) by {
            if i < before.len() {
                assert(before.contains(before[i]));
            }
        }
    }
}

/// The hooks that are ready with their repositories are what the project gets for the entries
/// without additional dependencies.
proof fn lemma_direct_sources(config: ConfigWireView, events: Seq<EventView>, n: int)
    requires
        0 <= n <= events.len(),
    ensures
        ({
            let sources = entry_sources(config, events, n, false);
            let hooks = direct(config, events.take(n));
            &&& hooks.len() == sources.len()
            &&& forall|i: int|
                0 <= i < hooks.len() ==> #[trigger] hooks[i] == prepare::placed(
                    got(config, events, sources[i]),
                    events[sources[i]->event]->stored->Ok_0.path,
                )
        }),
    decreases n,
{
    if n > 0 {
        let pred = by_dependencies(false);
        let resolved = taken(config, events, n - 1);
        lemma_direct_sources(config, events, n - 1);
        seqs::lemma_filter_picks(resolved, pred);
        assert(events.take(n).drop_last() =~= events.take(n - 1));
        assert(events.take(n).last() == events[n - 1]);
        assert(pred =~= |h: ManifestHookView| !prepare::has_dependencies(h));
    }
}

/// The hooks that are deferred are what the project gets for the entries with additional
/// dependencies.
proof fn lemma_deferral_sources(config: ConfigWireView, events: Seq<EventView>, n: int)
    requires
        0 <= n <= events.len(),
    ensures
        ({
            let sources = entry_sources(config, events, n, true);
            let hooks = deferrals(config, events.take(n));
            &&& hooks.len() == sources.len()
            &&& forall|i: int|
                0 <= i < hooks.len() ==> (#[trigger] hooks[i]).hook == got(
                    config,
                    events,
                    sources[i],
                ) && hooks[i].repo == events[sources[i]->event]->repo
        }),
    decreases n,
{
    if n > 0 {
        let pred = by_dependencies(true);
        let resolved = taken(config, events, n - 1);
        lemma_deferral_sources(config, events, n - 1);
        seqs::lemma_filter_picks(resolved, pred);
        assert(events.take(n).drop_last() =~= events.take(n - 1));
        assert(events.take(n).last() == events[n - 1]);
        assert(pred =~= |h: ManifestHookView| prepare::has_dependencies(h));
    }
}

/// The deferred hooks are ready in the order in which their numbers were reported.
proof fn lemma_delayed_at(deferred: Seq<DeferredView>, events: Seq<EventView>)
    ensures
        delayed(deferred, events).len() == reported(events).len(),
        forall|i: int|
            0 <= i < reported(events).len() ==> {
                let hook = #[trigger] delayed(deferred, events)[i];
                hook.config == deferred[reported(events)[i]].hook && hook.path is Some
            },
    decreases events.len(),
{
    if events.len() > 0 {
        lemma_delayed_at(deferred, events.drop_last());
    }
}

/// The hooks of local repositories.
spec fn local_sources(repos: Seq<ConfigRepoView>) -> Seq<Source>
    decreases repos.len(),
{
    if repos.len() == 0 {
        Seq::empty()
    } else {
        let before = local_sources(repos.drop_last());
        match repos.last() {
            ConfigRepoView::Local(hooks) => before + Seq::new(
                hooks.len(),
                |hook: int| Source::Local { repo: repos.len() - 1, hook },
            ),
            _ => before,
        }
    }
}

/// Whether `source` is a hook of a local repository among `repos`.
spec fn is_local(repos: Seq<ConfigRepoView>, source: Source) -> bool {
    &&& source is Local
    &&& 0 <= source->repo < repos.len()
    &&& repos[source->repo] is Local
    &&& 0 <= source->hook < repos[source->repo]->Local_0.len()
}

proof fn lemma_local_sources(repos: Seq<ConfigRepoView>)
    ensures
        ({
            let sources = local_sources(repos);
            let hooks = prepare::local_hooks(repos);
            &&& hooks.len() == sources.len()
            &&& forall|i: int|
                0 <= i < hooks.len() ==> is_local(repos, #[trigger] sources[i]) && hooks[i]
                    == repos[sources[i]->repo]->Local_0[sources[i]->hook]
            &&& forall|source: Source| #[trigger]
                is_local(repos, source) ==> sources.contains(source)
            &&& forall|i: int, j: int|
                0 <= i < j < sources.len() ==> precedes(
                    #[trigger] sources[i],
                    #[trigger] sources[j],
                )
        }),
    decreases repos.len(),
{
    if repos.len() > 0 {
        let init = repos.drop_last();
        let before = local_sources(init);
        let sources = local_sources(repos);
        let hooks = prepare::local_hooks(repos);
        lemma_local_sources(init);
        assert forall|i: int| 0 <= i < hooks.len() implies is_local(repos, #[trigger] sources[i])
            && hooks[i] == repos[sources[i]->repo]->Local_0[sources[i]->hook] by {
            if i < before.len() {
                assert(is_local(init, before[i]));
                assert(init[before[i]->repo] == repos[before[i]->repo]);
            }
        }
        assert forall|source: Source| #[trigger]
            is_local(repos, source) implies sources.contains(source) by {
            if source->repo < init.len() {
                assert(init[source->repo] == repos[source->repo]);
                assert(is_local(init, source));
                assert(sources[before.index_of(source)] == source);
            } else {
                assert(sources[before.len() + source->hook] == source);
            }
        }
        assert forall|i: int, j: int| 0 <= i < j < sources.len() implies precedes(
            #[trigger] sources[i],
            #[trigger] sources[j],
        ) by {
            if i < before.len() {
                assert(is_local(init, before[i]));
            }
        }
    }
}

/// A repository that was reported can be used, as long as the preparation has not failed.
proof fn lemma_repos_can_be_used(config: ConfigWireView, events: Seq<EventView>)
    requires
        possible(config, events),
        !(after(config, events).1 is Fail),
    ensures
        forall|e: int|
            0 <= e < events.len() && #[trigger] events[e] is Repo ==> {
                let repo = events[e]->repo;
                let stored = events[e]->stored->Ok_0;
                &&& events[e]->stored is Ok
                &&& stored.manifest is Ok
                &&& 0 <= repo < config.repos.len()
                &&& config.repos[repo] is Remote
                &&& prepare::first_missing(
                    stored.manifest->Ok_0,
                    config.repos[repo]->Remote_0.hooks,
                ) is None
            },
    decreases events.len(),
{
    if events.len() > 0 {
        let before = events.drop_last();
        lemma_after_in_order(config, before);
        lemma_stepped(after(config, before).0, events.last());
        lemma_repos_can_be_used(config, before);
        assert forall|e: int| 0 <= e < events.len() && #[trigger] events[e] is Repo implies {
            let repo = events[e]->repo;
            let stored = events[e]->stored->Ok_0;
            &&& events[e]->stored is Ok
            &&& stored.manifest is Ok
            &&& 0 <= repo < config.repos.len()
            &&& config.repos[repo] is Remote
            &&& prepare::first_missing(
                stored.manifest->Ok_0,
                config.repos[repo]->Remote_0.hooks,
            ) is None
        } by {
            if e < before.len() {
                assert(before[e] is Repo);
            }
        }
    }
}

/// What the project gets for an entry stems from it.
proof fn lemma_got_stems(
    config: ConfigWireView,
    events: Seq<EventView>,
    source: Source,
    hook: HookView,
)
    requires
        possible(config, events),
        !(after(config, events).1 is Fail),
        is_entry(
            config,
            events,
            events.len() as int,
            prepare::has_dependencies(hook.config),
            source,
        ),
        hook.config == got(config, events, source),
        match hook.config.additional_dependencies {
            Some(_) => hook.path is Some,
            None => hook == prepare::placed(
                hook.config,
                events[source->event]->stored->Ok_0.path,
            ),
        },
    ensures
        stems_from(config, events, hook, source),
{
    lemma_repos_can_be_used(config, events);
    let event = events[source->event];
    assert(event is Repo);
    let offered = event->stored->Ok_0.manifest->Ok_0;
    let entries = config.repos[event->repo]->Remote_0.hooks;
    let wanted = entries[source->entry];
    prepare::a_hook_is_missing_exactly_if_none_has_its_id(offered, entries);
    assert(prepare::has_id(offered, wanted.id));
    let at = prepare::a_project_gets_what_it_asks_for(offered, wanted, config);
    assert(hook.config == prepare::resolved_hook(offered, wanted, config));
    assert(prepare::is_first_with_id(offered, wanted.id, at));
    prepare::a_hook_is_placed_where_it_was_stored(
        hook.config,
        event->stored->Ok_0.path,
    );
}

/// A preparation that has finished hands out exactly one hook for every entry of a remote
/// repository and for every local hook, and each is what its source asks for, with the
/// project's defaults, whether or not it has additional dependencies. `sources` are the
/// sources of the hooks. First come the hooks of remote repositories without additional
/// dependencies, in the order in which the repositories were reported and the entries stand;
/// then those with additional dependencies; then the local ones, in the order of the
/// configuration.
pub proof fn every_source_gives_one_hook_as_asked_for(
    config: ConfigWireView,
    events: Seq<EventView>,
) -> (sources: Seq<Source>)
    requires
        possible(config, events),
        after(config, events).1 is Finish,
    ensures
        ({
            let hooks = after(config, events).1->Finish_0;
            &&& sources.len() == hooks.len()
            &&& forall|i: int|
                0 <= i < hooks.len() ==> stems_from(
                    config,
                    events,
                    #[trigger] hooks[i],
                    sources[i],
                )
            &&& sources.no_duplicates()
            &&& forall|source: Source| #[trigger]
                sources.contains(source) <==> is_source(config, events, source)
            &&& forall|i: int, j: int|
                0 <= i < j < hooks.len() ==> {
                    let one = part(#[trigger] hooks[i], sources[i]);
                    let other = part(#[trigger] hooks[j], sources[j]);
                    one <= other && (one == other && one != 1 ==> precedes(sources[i], sources[j]))
                }
        }),
{
    let n = events.len() as int;
    let hooks = after(config, events).1->Finish_0;
    let first = entry_sources(config, events, n, false);
    let deferred = entry_sources(config, events, n, true);
    let numbers = reported(events);
    let second = Seq::new(numbers.len(), |i: int| deferred[numbers[i]]);
    let third = local_sources(config.repos);
    let sources = first + second + third;
    let locals = configured_locals(config);
    let paths = local_paths(events);
    assert(events.take(n) =~= events);
    the_hooks_follow_from_the_events(config, events);
    a_deferred_hook_stands_at_its_number(config, events);
    lemma_entry_sources(config, events, n, false);
    lemma_entry_sources(config, events, n, true);
    lemma_direct_sources(config, events, n);
    lemma_deferral_sources(config, events, n);
    lemma_delayed_at(deferrals(config, events), events);
    lemma_local_sources(config.repos);
    let ready = direct(config, events);
    let later = delayed(deferrals(config, events), events);
    let own = placed_locals(locals, locals.len(), paths);
    assert(hooks == ready + later + own);
    assert(sources.len() == hooks.len());
    assert forall|i: int| 0 <= i < first.len() implies {
        &&& hooks[i] == ready[i]
        &&& sources[i] == #[trigger] first[i]
        &&& is_entry(config, events, n, false, first[i])
        &&& !prepare::has_dependencies(hooks[i].config)
        &&& stems_from(config, events, hooks[i], first[i])
    } by {
        assert(first.contains(first[i]));
        assert(ready[i] == prepare::placed(
            got(config, events, first[i]),
            events[first[i]->event]->stored->Ok_0.path,
        ));
        lemma_got_stems(config, events, first[i], ready[i]);
    }
    assert forall|i: int| 0 <= i < second.len() implies {
        &&& hooks[first.len() + i] == later[i]
        &&& sources[first.len() + i] == #[trigger] second[i]
        &&& 0 <= numbers[i] < deferred.len()
        &&& is_entry(config, events, n, true, second[i])
        &&& prepare::has_dependencies(later[i].config)
        &&& stems_from(config, events, later[i], second[i])
    } by {
        assert(numbers.contains(numbers[i]));
        assert(deferred.contains(deferred[numbers[i]]));
        assert(later[i].config == deferrals(config, events)[numbers[i]].hook);
        lemma_got_stems(config, events, second[i], later[i]);
    }
    assert forall|i: int| 0 <= i < third.len() implies {
        &&& hooks[first.len() + second.len() + i] == own[i]
        &&& sources[first.len() + second.len() + i] == #[trigger] third[i]
        &&& stems_from(config, events, own[i], third[i])
    } by {
        let described = prepare::local_hooks(config.repos)[i];
        assert(is_local(config.repos, third[i]));
        assert(locals[i] == config::filled(described, config));
        config::a_hook_gets_the_defaults_that_it_leaves_open(described, config);
        prepare::a_hook_is_placed_where_it_was_stored(
            locals[i],
            paths[environments(locals, i as nat) as int],
        );
    }
    assert forall|i: int| 0 <= i < hooks.len() implies stems_from(
        config,
        events,
        #[trigger] hooks[i],
        sources[i],
    ) by {
        if i < first.len() {
            assert(sources[i] == first[i]);
        } else if i < first.len() + second.len() {
            assert(sources[i] == second[i - first.len()]);
        } else {
            assert(sources[i] == third[i - first.len() - second.len()]);
        }
    }
    assert forall|i: int, j: int| 0 <= i < j < sources.len() implies sources[i]
        != sources[j] by {
        let m = first.len() as int;
        let k = m + second.len();
        if j < m {
            assert(precedes(first[i], first[j]));
        } else if j < k {
            assert(is_entry(config, events, n, true, second[j - m]));
            if i < m {
                assert(is_entry(config, events, n, false, first[i]));
            } else {
                let one = numbers[i - m];
                let other = numbers[j - m];
                assert(second[i - m] == deferred[one] && second[j - m] == deferred[other]);
                assert(one != other);
                if one < other {
                    assert(precedes(deferred[one], deferred[other]));
                } else {
                    assert(precedes(deferred[other], deferred[one]));
                }
            }
        } else {
            assert(is_local(config.repos, third[j - k]));
            if i < m {
                assert(is_entry(config, events, n, false, first[i]));
            } else if i < k {
                assert(is_entry(config, events, n, true, second[i - m]));
            } else {
                assert(precedes(third[i - k], third[j - k]));
            }
        }
    }
    assert forall|source: Source| #[trigger]
        sources.contains(source) <==> is_source(config, events, source) by {
        if sources.contains(source) {
            let i = sources.index_of(source);
            assert(stems_from(config, events, hooks[i], sources[i]));
        }
        if is_source(config, events, source) {
            if source is Remote {
                let dependencies = prepare::has_dependencies(got(config, events, source));
                assert(is_entry(config, events, n, dependencies, source));
                if dependencies {
                    let task = deferred.index_of(source);
                    assert(numbers.contains(task));
                    let i = numbers.index_of(task);
                    assert(second[i] == source);
                    assert(sources[first.len() + i] == source);
                } else {
                    assert(sources[first.index_of(source)] == source);
                }
            } else {
                assert(is_local(config.repos, source));
                let i = third.index_of(source);
                assert(sources[first.len() + second.len() + i] == source);
            }
        }
    }
    assert forall|i: int, j: int| 0 <= i < j < hooks.len() implies {
        let one = part(#[trigger] hooks[i], sources[i]);
        let other = part(#[trigger] hooks[j], sources[j]);
        one <= other && (one == other && one != 1 ==> precedes(sources[i], sources[j]))
    } by {
        let m = first.len() as int;
        let k = m + second.len();
        if i < m {
            assert(sources[i] == first[i] && first[i] is Remote);
        } else if i < k {
            assert(sources[i] == second[i - m] && second[i - m] is Remote);
            assert(hooks[i] == later[i - m]);
        } else {
            assert(sources[i] == third[i - k]);
        }
        if j < m {
            assert(sources[j] == first[j] && first[j] is Remote);
            assert(precedes(first[i], first[j]));
        } else if j < k {
            assert(sources[j] == second[j - m] && second[j - m] is Remote);
            assert(hooks[j] == later[j - m]);
        } else {
            assert(sources[j] == third[j - k]);
            assert(is_local(config.repos, third[j - k]));
            if i >= k {
                assert(precedes(third[i - k], third[j - k]));
            }
        }
    }
    sources
}

/// The positions of the remote repositories that were reported, in the order in which they
/// were.
pub open spec fn reported_repos(events: Seq<EventView>) -> Seq<int>
    decreases events.len(),
{
    if events.len() == 0 {
        Seq::empty()
    } else {
        let before = reported_repos(events.drop_last());
        match events.last() {
            EventView::Repo { repo, .. } => before.push(repo),
            _ => before,
        }
    }
}

/// Whether there is a remote repository at the position `index`.
pub open spec fn is_remote(config: ConfigWireView, index: int) -> bool {
    0 <= index < config.repos.len() && config.repos[index] is Remote
}

proof fn lemma_reported_repos(config: ConfigWireView, events: Seq<EventView>)
    requires
        possible(config, events),
        !(after(config, events).1 is Fail),
    ensures
        reported_repos(events).no_duplicates(),
        forall|index: int| #[trigger]
            reported_repos(events).contains(index) <==> is_remote(config, index) && !after(
                config,
                events,
            ).0.repos.contains(index),
    decreases events.len(),
{
    if events.len() == 0 {
        let state = prepare::initial(config);
        lemma_started_in_order(config);
        lemma_gone_on_in_order(state, config);
        prepare::lemma_remote_positions(config.repos);
        assert(after(config, events).0.repos == state.repos);
    } else {
        let before = events.drop_last();
        let event = events.last();
        let now = after(config, before);
        let next = added(now.0, event);
        lemma_after_in_order(config, before);
        lemma_stepped(now.0, event);
        lemma_reported_repos(config, before);
        lemma_added_in_order(now, event, config);
        lemma_gone_on_in_order(next, config);
        assert(after(config, events).0.repos == next.repos);
        if let EventView::Repo { repo, .. } = event {
            let old_list = reported_repos(before);
            let list = reported_repos(events);
            let k = now.0.repos.index_of(repo);
            assert(!old_list.contains(repo));
            assert(list.no_duplicates()) by {
                assert forall|i: int, j: int| 0 <= i < j < list.len() implies list[i]
                    != list[j] by {
                    assert(old_list.contains(list[i]));
                }
            }
            assert forall|index: int| #[trigger]
                list.contains(index) <==> is_remote(config, index) && !next.repos.contains(
                    index,
                ) by {
                assert(list[old_list.len() as int] == repo);
                if old_list.contains(index) {
                    assert(list[old_list.index_of(index)] == index);
                }
                if list.contains(index) && index != repo {
                    assert(old_list[list.index_of(index)] == index);
                }
                if next.repos.contains(index) {
                    let i = next.repos.index_of(index);
                    assert(now.0.repos[if i < k {
                        i
                    } else {
                        i + 1
                    }] == index);
                }
                if now.0.repos.contains(index) && index != repo {
                    let i = now.0.repos.index_of(index);
                    assert(next.repos[if i < k {
                        i
                    } else {
                        i - 1
                    }] == index);
                }
            }
        }
    }
}

/// A preparation that has finished was told exactly once of every remote repository that the
/// project names, and of nothing else as of a repository.
pub proof fn every_remote_repository_is_reported_once(
    config: ConfigWireView,
    events: Seq<EventView>,
)
    requires
        possible(config, events),
        after(config, events).1 is Finish,
    ensures
        reported_repos(events).no_duplicates(),
        forall|index: int| #[trigger]
            reported_repos(events).contains(index) <==> is_remote(config, index),
{
    lemma_after_in_order(config, events);
    lemma_reported_repos(config, events);
}

/// What is asked for when work is asked for.
spec fn asks(now: (PreparationView, ActionView), config: ConfigWireView) -> bool {
    let state = now.0;
    match now.1 {
        ActionView::PrepareRepos(repos) => state.phase == Phase::Repos && repos == state.repos,
        ActionView::PrepareEnvironments(deferred) => state.phase == Phase::Environments && deferred
            == state.deferred,
        ActionView::PrepareLocal(hook) => state.phase == Phase::Locals && hook
            == prepare::first_local(state),
        ActionView::Await => state.phase == Phase::Repos || state.phase == Phase::Environments,
        _ => state.phase == Phase::Done,
    }
}

proof fn lemma_gone_on_asks(state: PreparationView, config: ConfigWireView)
    requires
        between(state, config),
    ensures
        asks(gone_on(state), config),
        state.phase == Phase::Repos && gone_on(state).0.phase == Phase::Environments
            ==> gone_on(state).1 is PrepareEnvironments,
        state.phase == Phase::Locals ==> gone_on(state).0.phase != Phase::Environments,
        gone_on(state).1 is PrepareEnvironments ==> state.phase == Phase::Repos,
{
    lemma_next_local_leaves(state);
    lemma_gone_on_in_order(state, config);
}

proof fn lemma_after_asks(config: ConfigWireView, events: Seq<EventView>)
    requires
        possible(config, events),
    ensures
        asks(after(config, events), config),
    decreases events.len(),
{
    lemma_after_in_order(config, events);
    if events.len() == 0 {
        lemma_started_in_order(config);
        lemma_gone_on_asks(prepare::initial(config), config);
    } else {
        let before = events.drop_last();
        let now = after(config, before);
        lemma_after_in_order(config, before);
        lemma_stepped(now.0, events.last());
        if failure(now.0, events.last()) is None {
            lemma_added_in_order(now, events.last(), config);
            lemma_gone_on_asks(added(now.0, events.last()), config);
        }
    }
}

/// A preparation begins by asking for every remote repository of the project, in the order of
/// the configuration, and for nothing else, if there is any.
pub proof fn every_remote_repository_is_asked_for(config: ConfigWireView)
    requires
        exists|index: int| #[trigger] is_remote(config, index),
    ensures
        prepare::started(config).1 matches ActionView::PrepareRepos(repos) && (forall|
            index: int,
        | #[trigger]
            repos.contains(index) <==> is_remote(config, index)) && (forall|i: int, j: int|
            0 <= i < j < repos.len() ==> #[trigger] repos[i] < #[trigger] repos[j]),
{
    prepare::lemma_remote_positions(config.repos);
    lemma_remote_positions_ascend(config.repos);
    let index = choose|index: int| #[trigger] is_remote(config, index);
    assert(prepare::remote_positions(config.repos).contains(index));
}

proof fn lemma_remote_positions_ascend(repos: Seq<ConfigRepoView>)
    ensures
        forall|i: int, j: int|
            0 <= i < j < prepare::remote_positions(repos).len() ==> #[trigger]
            prepare::remote_positions(repos)[i] < #[trigger] prepare::remote_positions(repos)[j],
    decreases repos.len(),
{
    if repos.len() > 0 {
        let init = repos.drop_last();
        let before = prepare::remote_positions(init);
        let now = prepare::remote_positions(repos);
        lemma_remote_positions_ascend(init);
        prepare::lemma_remote_positions(init);
        assert forall|i: int, j: int| 0 <= i < j < now.len() implies #[trigger] now[i]
            < #[trigger] now[j] by {
            assert(before.contains(before[i]));
        }
    }
}

/// Which work is asked for: at first remote repositories, then all hooks that are deferred,
/// then the next local hook that needs an environment, with the project's defaults.
pub proof fn work_is_asked_for_as_it_comes_up(config: ConfigWireView, events: Seq<EventView>)
    requires
        possible(config, events),
    ensures
        match after(config, events).1 {
            ActionView::PrepareRepos(_) => events.len() == 0,
            ActionView::PrepareEnvironments(deferred) => deferred == deferrals(config, events)
                && deferred.len() > 0,
            ActionView::PrepareLocal(hook) => exists|k: int| {
                &&& 0 <= k < prepare::local_hooks(config.repos).len()
                &&& config::has_defaults(
                    hook,
                    #[trigger] prepare::local_hooks(config.repos)[k],
                    config,
                )
                &&& language::needs_environment(hook.language)
                &&& environments(configured_locals(config), k as nat) == local_paths(events).len()
            },
            _ => true,
        },
{
    lemma_after_in_order(config, events);
    lemma_after_asks(config, events);
    let now = after(config, events);
    if !(now.1 is Fail) {
        lemma_after_follows(config, events);
        let state = now.0;
        if let ActionView::PrepareLocal(hook) = now.1 {
            let all = prepare::local_hooks(config.repos);
            let k = configured_locals(config).len() - state.locals.len();
            assert(state.locals[0] == all[k]);
            config::a_hook_gets_the_defaults_that_it_leaves_open(all[k], config);
        }
    }
    if now.1 is PrepareRepos {
        if events.len() > 0 {
            lemma_no_repos_are_asked_for_again(config, events);
        }
    }
    if now.1 is PrepareEnvironments {
        lemma_asked_when_all_are_deferred(config, events);
    }
}

proof fn lemma_no_repos_are_asked_for_again(config: ConfigWireView, events: Seq<EventView>)
    requires
        possible(config, events),
        events.len() > 0,
    ensures
        !(after(config, events).1 is PrepareRepos),
{
    let before = events.drop_last();
    let now = after(config, before);
    lemma_after_in_order(config, before);
    lemma_stepped(now.0, events.last());
    if failure(now.0, events.last()) is None {
        lemma_added_in_order(now, events.last(), config);
        lemma_next_local_leaves(added(now.0, events.last()));
    }
}

proof fn lemma_asked_when_all_are_deferred(config: ConfigWireView, events: Seq<EventView>)
    requires
        possible(config, events),
        after(config, events).1 is PrepareEnvironments,
    ensures
        after(config, events).1->PrepareEnvironments_0 == deferrals(config, events),
        deferrals(config, events).len() > 0,
{
    lemma_after_asks(config, events);
    lemma_after_in_order(config, events);
    if events.len() == 0 {
        lemma_started_in_order(config);
        lemma_next_local_leaves(prepare::initial(config));
    } else {
        let before = events.drop_last();
        let event = events.last();
        let now = after(config, before);
        assert(before.push(event) =~= events);
        lemma_after_in_order(config, before);
        lemma_stepped(now.0, event);
        lemma_added_in_order(now, event, config);
        let next = added(now.0, event);
        lemma_gone_on_asks(next, config);
        lemma_after_follows(config, before);
        lemma_added_follows(now, config, before, event);
        assert(after(config, events) == gone_on(next));
        assert(next.deferred == deferrals(config, events));
        lemma_next_local_leaves(next);
    }
}

/// Whatever is waited for was asked for: repositories at the beginning, deferred hooks with
/// all others when the last repository had been reported, and the local hook just now. `at` is
/// the number of events after which it was asked for.
pub proof fn what_is_waited_for_was_asked_for(
    config: ConfigWireView,
    events: Seq<EventView>,
    event: EventView,
) -> (at: int)
    requires
        possible(config, events),
        prepare::awaited(after(config, events).0, event),
    ensures
        0 <= at <= events.len(),
        match event {
            EventView::Repo { repo, .. } => after(
                config,
                events.take(at),
            ).1 matches ActionView::PrepareRepos(repos) && repos.contains(repo),
            EventView::Environment { task, .. } => after(
                config,
                events.take(at),
            ).1 matches ActionView::PrepareEnvironments(deferred) && 0 <= task < deferred.len()
                && deferred[task].task == task && deferred == deferrals(config, events),
            EventView::Local { .. } => at == events.len() && after(
                config,
                events,
            ).1 is PrepareLocal,
        },
{
    let now = after(config, events);
    lemma_after_in_order(config, events);
    lemma_after_asks(config, events);
    match event {
        EventView::Repo { repo, .. } => {
            lemma_reported_repos(config, events);
            prepare::lemma_remote_positions(config.repos);
            assert(is_remote(config, repo));
            every_remote_repository_is_asked_for(config);
            assert(events.take(0) =~= Seq::<EventView>::empty());
            0
        },
        EventView::Environment { task, .. } => {
            let at = lemma_environments_were_asked_for(config, events);
            lemma_after_follows(config, events);
            let k = prepare::tasks(now.0.deferred).index_of(task);
            assert(now.0.deferred[k].task == task);
            a_deferred_hook_stands_at_its_number(config, events);
            assert(deferrals(config, events)[task].task == task);
            at
        },
        EventView::Local { .. } => events.len() as int,
    }
}

proof fn lemma_environments_were_asked_for(config: ConfigWireView, events: Seq<EventView>) -> (at:
    int)
    requires
        possible(config, events),
        after(config, events).0.phase == Phase::Environments,
    ensures
        0 <= at <= events.len(),
        after(config, events.take(at)).1 == ActionView::PrepareEnvironments(
            deferrals(config, events),
        ),
    decreases events.len(),
{
    let now = after(config, events);
    assert(events.take(events.len() as int) =~= events);
    lemma_after_asks(config, events);
    if now.1 is PrepareEnvironments {
        lemma_asked_when_all_are_deferred(config, events);
        events.len() as int
    } else if events.len() == 0 {
        lemma_started_in_order(config);
        lemma_gone_on_asks(prepare::initial(config), config);
        0
    } else {
        let before = events.drop_last();
        let last = events.last();
        let earlier = after(config, before);
        lemma_after_in_order(config, before);
        lemma_stepped(earlier.0, last);
        lemma_added_in_order(earlier, last, config);
        lemma_gone_on_asks(added(earlier.0, last), config);
        assert(earlier.0.phase == Phase::Environments);
        let at = lemma_environments_were_asked_for(config, before);
        assert(before.take(at) =~= events.take(at));
        at
    }
}

/// Outcomes are awaited until they are reported: first those of the remote repositories, then
/// those of the deferred hooks, each by its number, and then that of one local hook at a time.
pub proof fn an_outcome_is_awaited_until_it_is_reported(
    config: ConfigWireView,
    events: Seq<EventView>,
    event: EventView,
)
    requires
        possible(config, events),
        !(after(config, events).1 is Fail),
        !(after(config, events).1 is Finish),
    ensures
        ({
            let awaited = prepare::awaited(after(config, events).0, event);
            let repos_left = exists|index: int|
                #[trigger] is_remote(config, index) && !reported_repos(events).contains(index);
            let tasks_left = exists|task: int|
                0 <= task < deferrals(config, events).len() && !(#[trigger] reported(
                    events,
                ).contains(task));
            awaited <==> match event {
                EventView::Repo { repo, .. } => is_remote(config, repo) && !reported_repos(
                    events,
                ).contains(repo),
                EventView::Environment { task, .. } => !repos_left && 0 <= task < deferrals(
                    config,
                    events,
                ).len() && !reported(events).contains(task),
                EventView::Local { .. } => !repos_left && !tasks_left,
            }
        }),
{
    let now = after(config, events);
    let state = now.0;
    lemma_after_in_order(config, events);
    lemma_after_asks(config, events);
    lemma_after_follows(config, events);
    lemma_reported_repos(config, events);
    let repos_left = exists|index: int|
        #[trigger] is_remote(config, index) && !reported_repos(events).contains(index);
    let tasks_left = exists|task: int|
        0 <= task < deferrals(config, events).len() && !(#[trigger] reported(events).contains(
            task,
        ));
    if state.phase == Phase::Repos {
        assert(state.repos.contains(state.repos[0]));
        assert(!reported_repos(events).contains(state.repos[0]));
        assert(is_remote(config, state.repos[0]));
        assert(repos_left);
    } else {
        assert(!repos_left) by {
            if repos_left {
                let index = choose|index: int|
                    #[trigger] is_remote(config, index) && !reported_repos(events).contains(
                        index,
                    );
                assert(reported_repos(events).contains(index));
            }
        }
        if state.phase == Phase::Environments {
            let task = state.deferred[0].task;
            assert(prepare::tasks(state.deferred)[0] == task);
            assert(!reported(events).contains(task));
            assert(tasks_left);
        } else {
            assert(!tasks_left) by {
                if tasks_left {
                    let task = choose|task: int|
                        0 <= task < deferrals(config, events).len() && !(#[trigger] reported(
                            events,
                        ).contains(task));
                    assert(reported(events).contains(task));
                }
            }
        }
        if let EventView::Repo { repo, .. } = event {
            assert(!(is_remote(config, repo) && !reported_repos(events).contains(repo)));
        }
    }
    match event {
        EventView::Repo { repo, .. } => {
            assert(reported_repos(events).contains(repo) <==> is_remote(config, repo)
                && !state.repos.contains(repo));
        },
        EventView::Environment { task, .. } => {
            assert(reported(events).contains(task) <==> 0 <= task < deferrals(
                config,
                events,
            ).len() && !prepare::tasks(state.deferred).contains(task));
            if prepare::tasks(state.deferred).contains(task) {
                let k = prepare::tasks(state.deferred).index_of(task);
                assert(state.deferred[k].task == task);
            }
        },
        EventView::Local { .. } => {},
    }
}

/// A repository that is taken fails the preparation with its own error, or for the first hook
/// that it does not offer though the project asks for it. Else what the project gets from it
/// is ready or deferred, and it is no longer waited for.
pub proof fn a_repository_is_taken_as_it_is(
    state: PreparationView,
    index: int,
    path: Seq<char>,
    repo: Result<hook::RepoView, ErrorView>,
)
    requires
        state.repos.contains(index),
        state.repos.len() > 1,
    ensures
        ({
            let next = prepare::repo_taken(state, index, path, repo);
            let wanted = state.config.repos[index]->Remote_0.hooks;
            match repo {
                Err(error) => next.1 == ActionView::Fail(error),
                Ok(repo) => if exists|i: int|
                    0 <= i < wanted.len() && !prepare::has_id(
                        hook::offered(repo),
                        (#[trigger] wanted[i]).id,
                    ) {
                    next.1 matches ActionView::Fail(
                        ErrorView::HookNotFound { hook: missing, repo: label },
                    ) && label == hook::repo_label(repo) && exists|i: int|
                        0 <= i < wanted.len() && (#[trigger] wanted[i]).id == missing
                            && !prepare::has_id(hook::offered(repo), missing) && forall|j: int|
                            0 <= j < i ==> prepare::has_id(
                                hook::offered(repo),
                                (#[trigger] wanted[j]).id,
                            )
                } else {
                    &&& next.1 is Await
                    &&& next.0.repos.len() == state.repos.len() - 1
                    &&& next.0.hooks.len() + next.0.deferred.len() == state.hooks.len()
                        + state.deferred.len() + wanted.len()
                    &&& state.hooks.is_prefix_of(next.0.hooks)
                    &&& state.deferred.is_prefix_of(next.0.deferred)
                },
            }
        }),
{
    if let Ok(repo) = repo {
        let wanted = state.config.repos[index]->Remote_0.hooks;
        let resolved = prepare::taken_from(state.config, index, hook::offered(repo));
        prepare::a_hook_is_missing_exactly_if_none_has_its_id(hook::offered(repo), wanted);
        lemma_split_len(resolved);
        let next = prepare::repo_added(state, index, path, hook::offered(repo));
        assert(state.hooks =~= next.hooks.take(state.hooks.len() as int));
        assert(state.deferred =~= next.deferred.take(state.deferred.len() as int));
    }
}

proof fn lemma_split_len(s: Seq<ManifestHookView>)
    ensures
        s.filter(|h: ManifestHookView| prepare::has_dependencies(h)).len() + s.filter(
            |h: ManifestHookView| !prepare::has_dependencies(h),
        ).len() == s.len(),
    decreases s.len(),
{
    reveal(Seq::filter);
    if s.len() > 0 {
        lemma_split_len(s.drop_last());
    }
}

/// A deferred hook is what an entry of a repository asks for, and it is to be stored from that
/// repository. Whatever path is reported for it, it is that hook with that path.
pub proof fn a_deferred_hook_is_stored_from_its_repository(
    config: ConfigWireView,
    events: Seq<EventView>,
    task: int,
    path: Seq<char>,
) -> (source: Source)
    requires
        possible(config, events),
        !(after(config, events).1 is Fail),
        0 <= task < deferrals(config, events).len(),
    ensures
        ({
            let deferred = deferrals(config, events)[task];
            &&& source is Remote
            &&& events[source->event]->repo == deferred.repo
            &&& deferred.hook.additional_dependencies is Some
            &&& stems_from(
                config,
                events,
                (HookView { config: deferred.hook, path: Some(path) }),
                source,
            )
        }),
{
    let n = events.len() as int;
    let sources = entry_sources(config, events, n, true);
    let source = sources[task];
    let hook = HookView { config: deferrals(config, events)[task].hook, path: Some(path) };
    assert(events.take(n) =~= events);
    lemma_entry_sources(config, events, n, true);
    lemma_deferral_sources(config, events, n);
    assert(sources.contains(source));
    assert(is_entry(config, events, n, true, source));
    assert(deferrals(config, events)[task].hook == got(config, events, source));
    lemma_got_stems(config, events, source, hook);
    source
}

} // verus!
