//! The course of a run: what is done with the hooks of a project, in which order, and when
//! the store is locked.

use vstd::prelude::*;

use crate::cli::ExitStatus;
use crate::hook::{Hook, HookView};
use crate::run;
use crate::run::{RunPlan, RunPlanView};
use crate::stage::Stage;
use crate::text;

verus! {

/// What a run waits for.
#[derive(Debug, Clone, Copy, PartialEq, Eq, Structural)]
pub enum RunPhase {
    Store,
    Project,
    Lock,
    Prepare,
    Install,
    Unlock,
    Hooks,
    Over,
}

/// What has been done.
#[derive(Debug)]
pub enum RunEvent {
    /// The store was initialized.
    StoreReady,
    /// The project was loaded.
    ProjectLoaded,
    /// The store was locked.
    Locked,
    /// The hooks of the project were prepared; `skip` is the comma separated list of those
    /// to skip, if there is one.
    Prepared { hooks: Vec<Hook>, skip: Option<String> },
    /// The hooks were installed.
    Installed,
    /// The store was unlocked.
    Unlocked,
    /// The hooks were run.
    Ran,
    /// What was to be done failed: the message of the error, then that of what caused it, and
    /// so on.
    Failed { chain: Vec<String> },
}

/// What a [`RunEvent`] says.
pub enum RunEventView {
    StoreReady,
    ProjectLoaded,
    Locked,
    Prepared { hooks: Seq<HookView>, skips: Seq<Seq<char>> },
    Installed,
    Unlocked,
    Ran,
    Failed { chain: Seq<Seq<char>> },
}

/// The ids and aliases of the hooks to skip.
pub open spec fn skip_list(skip: Option<String>) -> Seq<Seq<char>> {
    run::skip_entries(skip.deep_view())
}

impl View for RunEvent {
    type V = RunEventView;

    open spec fn view(&self) -> RunEventView {
        match self {
            RunEvent::StoreReady => RunEventView::StoreReady,
            RunEvent::ProjectLoaded => RunEventView::ProjectLoaded,
            RunEvent::Locked => RunEventView::Locked,
            RunEvent::Prepared { hooks, skip } => RunEventView::Prepared {
                hooks: hooks.deep_view(),
                skips: skip_list(*skip),
            },
            RunEvent::Installed => RunEventView::Installed,
            RunEvent::Unlocked => RunEventView::Unlocked,
            RunEvent::Ran => RunEventView::Ran,
            RunEvent::Failed { chain } => RunEventView::Failed { chain: chain.deep_view() },
        }
    }
}

/// What is to be done next.
#[derive(Debug)]
pub enum RunStep {
    /// Initialize the store.
    InitStore,
    /// Load the project.
    LoadProject,
    /// Lock the store.
    Lock,
    /// Prepare the hooks of the project.
    Prepare,
    /// Install these hooks.
    Install(Vec<Hook>),
    /// Unlock the store.
    Unlock,
    /// Run the hooks but for those of `skips`.
    RunHooks { hooks: Vec<Hook>, skips: Vec<String> },
    /// Say the message, if there is one, and exit. The store is unlocked then.
    Exit { message: Option<String>, status: ExitStatus },
    /// Report the error and exit. The store is unlocked then, if it was locked.
    Fail { chain: Vec<String> },
}

/// What a [`RunStep`] says.
pub enum RunStepView {
    InitStore,
    LoadProject,
    Lock,
    Prepare,
    Install(Seq<HookView>),
    Unlock,
    RunHooks { hooks: Seq<HookView>, skips: Seq<Seq<char>> },
    Exit { message: Option<Seq<char>>, status: ExitStatus },
    Fail { chain: Seq<Seq<char>> },
}

impl View for RunStep {
    type V = RunStepView;

    open spec fn view(&self) -> RunStepView {
        match self {
            RunStep::InitStore => RunStepView::InitStore,
            RunStep::LoadProject => RunStepView::LoadProject,
            RunStep::Lock => RunStepView::Lock,
            RunStep::Prepare => RunStepView::Prepare,
            RunStep::Install(hooks) => RunStepView::Install(hooks.deep_view()),
            RunStep::Unlock => RunStepView::Unlock,
            RunStep::RunHooks { hooks, skips } => RunStepView::RunHooks {
                hooks: hooks.deep_view(),
                skips: skips.deep_view(),
            },
            RunStep::Exit { message, status } => RunStepView::Exit {
                message: message.deep_view(),
                status: *status,
            },
            RunStep::Fail { chain } => RunStepView::Fail { chain: chain.deep_view() },
        }
    }
}

/// The status that a run exits with at a step, if it exits there.
pub open spec fn exit_status(step: RunStepView) -> Option<ExitStatus> {
    match step {
        RunStepView::Exit { status, .. } => Some(status),
        RunStepView::Fail { .. } => Some(ExitStatus::Error),
        _ => None,
    }
}

impl RunStep {
    /// The status that the run exits with at this step, if it exits here.
    pub fn status(&self) -> (status: Option<ExitStatus>)
        ensures
            status == exit_status(self@),
    {
        match self {
            RunStep::Exit { status, .. } => Some(*status),
            RunStep::Fail { .. } => Some(ExitStatus::Error),
            _ => None,
        }
    }
}

/// A run, as far as it has come.
#[derive(Debug)]
pub struct Session {
    hook_id: Option<String>,
    hook_stage: Option<Stage>,
    phase: RunPhase,
    hooks: Vec<Hook>,
    skips: Vec<String>,
}

/// The state of a [`Session`].
pub struct SessionView {
    /// What was asked for.
    pub hook_id: Option<Seq<char>>,
    pub hook_stage: Option<Stage>,
    pub phase: RunPhase,
    /// The hooks that are still to run, and those of them to skip.
    pub hooks: Seq<HookView>,
    pub skips: Seq<Seq<char>>,
}

impl View for Session {
    type V = SessionView;

    closed spec fn view(&self) -> SessionView {
        SessionView {
            hook_id: self.hook_id.deep_view(),
            hook_stage: self.hook_stage,
            phase: self.phase,
            hooks: self.hooks.deep_view(),
            skips: self.skips.deep_view(),
        }
    }
}

/// The beginning of a run.
pub open spec fn begun(hook_id: Option<Seq<char>>, hook_stage: Option<Stage>) -> (
    SessionView,
    RunStepView,
) {
    (
        SessionView {
            hook_id,
            hook_stage,
            phase: RunPhase::Store,
            hooks: Seq::empty(),
            skips: Seq::empty(),
        },
        RunStepView::InitStore,
    )
}

/// Whether a run waits for `event`: whatever it waits for may fail.
pub open spec fn expected(state: SessionView, event: RunEventView) -> bool {
    match event {
        RunEventView::StoreReady => state.phase == RunPhase::Store,
        RunEventView::ProjectLoaded => state.phase == RunPhase::Project,
        RunEventView::Locked => state.phase == RunPhase::Lock,
        RunEventView::Prepared { .. } => state.phase == RunPhase::Prepare,
        RunEventView::Installed => state.phase == RunPhase::Install,
        RunEventView::Unlocked => state.phase == RunPhase::Unlock,
        RunEventView::Ran => state.phase == RunPhase::Hooks,
        RunEventView::Failed { .. } => state.phase != RunPhase::Over,
    }
}

/// Goes on after `event`.
pub open spec fn advanced(state: SessionView, event: RunEventView) -> (SessionView, RunStepView) {
    match event {
        RunEventView::StoreReady => (
            SessionView { phase: RunPhase::Project, ..state },
            RunStepView::LoadProject,
        ),
        RunEventView::ProjectLoaded => (
            SessionView { phase: RunPhase::Lock, ..state },
            RunStepView::Lock,
        ),
        RunEventView::Failed { chain } => (
            SessionView { phase: RunPhase::Over, ..state },
            RunStepView::Fail { chain },
        ),
        RunEventView::Locked => (
            SessionView { phase: RunPhase::Prepare, ..state },
            RunStepView::Prepare,
        ),
        RunEventView::Prepared { hooks, skips } => match run::planned(
            hooks,
            state.hook_id,
            state.hook_stage,
            skips,
        ) {
            RunPlanView::NotFound { message } => (
                SessionView { phase: RunPhase::Over, ..state },
                RunStepView::Exit { message: Some(message), status: ExitStatus::Failure },
            ),
            RunPlanView::Run { to_install, hooks, skips } => (
                SessionView { phase: RunPhase::Install, hooks, skips, ..state },
                RunStepView::Install(to_install),
            ),
        },
        RunEventView::Installed => (
            SessionView { phase: RunPhase::Unlock, ..state },
            RunStepView::Unlock,
        ),
        RunEventView::Unlocked => (
            SessionView {
                phase: RunPhase::Hooks,
                hooks: Seq::empty(),
                skips: Seq::empty(),
                ..state
            },
            RunStepView::RunHooks { hooks: state.hooks, skips: state.skips },
        ),
        RunEventView::Ran => (
            SessionView { phase: RunPhase::Over, ..state },
            RunStepView::Exit { message: None, status: ExitStatus::Success },
        ),
    }
}

impl Session {
    /// Begins a run, which may be asked for the hooks of an id and those of a stage.
    pub fn start(hook_id: Option<String>, hook_stage: Option<Stage>) -> (begin: (Self, RunStep))
        ensures
            (begin.0@, begin.1@) == begun(hook_id.deep_view(), hook_stage),
    {
        let session = Session {
            hook_id,
            hook_stage,
            phase: RunPhase::Store,
            hooks: Vec::new(),
            skips: Vec::new(),
        };
        assert(session@.hooks =~= Seq::<HookView>::empty());
        assert(session@.skips =~= Seq::<Seq<char>>::empty());
        (session, RunStep::InitStore)
    }

    /// Whether the run waits for `event`.
    pub fn expects(&self, event: &RunEvent) -> (yes: bool)
        ensures
            yes == expected(self@, event@),
    {
        match event {
            RunEvent::StoreReady => self.phase == RunPhase::Store,
            RunEvent::ProjectLoaded => self.phase == RunPhase::Project,
            RunEvent::Locked => self.phase == RunPhase::Lock,
            RunEvent::Prepared { .. } => self.phase == RunPhase::Prepare,
            RunEvent::Installed => self.phase == RunPhase::Install,
            RunEvent::Unlocked => self.phase == RunPhase::Unlock,
            RunEvent::Ran => self.phase == RunPhase::Hooks,
            RunEvent::Failed { .. } => self.phase != RunPhase::Over,
        }
    }

    /// Goes on after `event`, and says what is to be done next.
    pub fn step(&mut self, event: RunEvent) -> (step: RunStep)
        requires
            expected(old(self)@, event@),
        ensures
            (final(self)@, step@) == advanced(old(self)@, event@),
    {
        match event {
            RunEvent::StoreReady => {
                self.phase = RunPhase::Project;
                RunStep::LoadProject
            },
            RunEvent::ProjectLoaded => {
                self.phase = RunPhase::Lock;
                RunStep::Lock
            },
            RunEvent::Failed { chain } => {
                self.phase = RunPhase::Over;
                RunStep::Fail { chain }
            },
            RunEvent::Locked => {
                self.phase = RunPhase::Prepare;
                RunStep::Prepare
            },
            RunEvent::Prepared { hooks, skip } => {
                let skip: Option<&str> = match &skip {
                    Some(list) => Some(list.as_str()),
                    None => None,
                };
                match run::run(&hooks, &self.hook_id, self.hook_stage, skip) {
                    RunPlan::NotFound { message } => {
                        self.phase = RunPhase::Over;
                        RunStep::Exit { message: Some(message), status: ExitStatus::Failure }
                    },
                    RunPlan::Run { to_install, hooks, skips } => {
                        self.phase = RunPhase::Install;
                        self.hooks = hooks;
                        self.skips = skips;
                        RunStep::Install(to_install)
                    },
                }
            },
            RunEvent::Installed => {
                self.phase = RunPhase::Unlock;
                RunStep::Unlock
            },
            RunEvent::Unlocked => {
                self.phase = RunPhase::Hooks;
                let mut hooks: Vec<Hook> = Vec::new();
                let mut skips: Vec<String> = Vec::new();
                std::mem::swap(&mut hooks, &mut self.hooks);
                std::mem::swap(&mut skips, &mut self.skips);
                assert(self@.hooks =~= Seq::<HookView>::empty());
                assert(self@.skips =~= Seq::<Seq<char>>::empty());
                RunStep::RunHooks { hooks, skips }
            },
            RunEvent::Ran => {
                self.phase = RunPhase::Over;
                RunStep::Exit { message: None, status: ExitStatus::Success }
            },
        }
    }
}

/// Where a run is after `events`.
pub open spec fn after(
    hook_id: Option<Seq<char>>,
    hook_stage: Option<Stage>,
    events: Seq<RunEventView>,
) -> (SessionView, RunStepView)
    decreases events.len(),
{
    if events.len() == 0 {
        begun(hook_id, hook_stage)
    } else {
        advanced(after(hook_id, hook_stage, events.drop_last()).0, events.last())
    }
}

/// Whether the run waited for each of `events` when it came.
pub open spec fn possible(
    hook_id: Option<Seq<char>>,
    hook_stage: Option<Stage>,
    events: Seq<RunEventView>,
) -> bool
    decreases events.len(),
{
    events.len() > 0 ==> {
        &&& possible(hook_id, hook_stage, events.drop_last())
        &&& expected(after(hook_id, hook_stage, events.drop_last()).0, events.last())
    }
}

/// Whether the store is locked after `events`.
pub open spec fn locked(events: Seq<RunEventView>) -> bool
    decreases events.len(),
{
    events.len() > 0 && match events.last() {
        RunEventView::Locked => true,
        RunEventView::Unlocked => false,
        _ => locked(events.drop_last()),
    }
}

/// Hooks are prepared and installed while the store is locked, and run while it is not.
pub proof fn hooks_are_prepared_under_the_lock_and_run_without_it(
    hook_id: Option<Seq<char>>,
    hook_stage: Option<Stage>,
    events: Seq<RunEventView>,
)
    requires
        possible(hook_id, hook_stage, events),
    ensures
        ({
            let now = after(hook_id, hook_stage, events);
            &&& now.1 is Prepare || now.1 is Install || now.1 is Unlock ==> locked(events)
            &&& now.1 is RunHooks ==> !locked(events)
        }),
{
    lemma_lock_follows_the_phase(hook_id, hook_stage, events);
}

proof fn lemma_lock_follows_the_phase(
    hook_id: Option<Seq<char>>,
    hook_stage: Option<Stage>,
    events: Seq<RunEventView>,
)
    requires
        possible(hook_id, hook_stage, events),
    ensures
        ({
            let now = after(hook_id, hook_stage, events);
            &&& match now.1 {
                RunStepView::InitStore => now.0.phase == RunPhase::Store,
                RunStepView::LoadProject => now.0.phase == RunPhase::Project,
                RunStepView::Fail { .. } => now.0.phase == RunPhase::Over,
                RunStepView::Lock => now.0.phase == RunPhase::Lock,
                RunStepView::Prepare => now.0.phase == RunPhase::Prepare,
                RunStepView::Install(_) => now.0.phase == RunPhase::Install,
                RunStepView::Unlock => now.0.phase == RunPhase::Unlock,
                RunStepView::RunHooks { .. } => now.0.phase == RunPhase::Hooks,
                RunStepView::Exit { .. } => now.0.phase == RunPhase::Over,
            }
            &&& match now.0.phase {
                RunPhase::Prepare | RunPhase::Install | RunPhase::Unlock => locked(events),
                RunPhase::Store | RunPhase::Project | RunPhase::Lock | RunPhase::Hooks => {
                    !locked(events)
                },
                RunPhase::Over => true,
            }
        }),
    decreases events.len(),
{
    if events.len() > 0 {
        lemma_lock_follows_the_phase(hook_id, hook_stage, events.drop_last());
    }
}

/// A run does what was planned: where hooks were found, it installs those that are not
/// skipped, then runs all that were asked for and succeeds; where none was found, it says so
/// and fails at once.
pub proof fn a_run_does_what_was_planned(
    hook_id: Option<Seq<char>>,
    hook_stage: Option<Stage>,
    hooks: Seq<HookView>,
    skips: Seq<Seq<char>>,
)
    ensures
        ({
            let prepared = seq![
                RunEventView::StoreReady,
                RunEventView::ProjectLoaded,
                RunEventView::Locked,
                RunEventView::Prepared { hooks, skips },
            ];
            let installed = prepared.push(RunEventView::Installed);
            let unlocked = installed.push(RunEventView::Unlocked);
            let ran = unlocked.push(RunEventView::Ran);
            match run::planned(hooks, hook_id, hook_stage, skips) {
                RunPlanView::NotFound { message } => {
                    &&& possible(hook_id, hook_stage, prepared)
                    &&& after(hook_id, hook_stage, prepared).1 == (RunStepView::Exit {
                        message: Some(message),
                        status: ExitStatus::Failure,
                    })
                },
                RunPlanView::Run { to_install, hooks, skips } => {
                    &&& possible(hook_id, hook_stage, ran)
                    &&& after(hook_id, hook_stage, prepared).1 == RunStepView::Install(to_install)
                    &&& after(hook_id, hook_stage, installed).1 == RunStepView::Unlock
                    &&& after(hook_id, hook_stage, unlocked).1 == (RunStepView::RunHooks {
                        hooks,
                        skips,
                    })
                    &&& after(hook_id, hook_stage, ran).1 == (RunStepView::Exit {
                        message: None,
                        status: ExitStatus::Success,
                    })
                },
            }
        }),
{
    let nothing = Seq::<RunEventView>::empty();
    let stored = nothing.push(RunEventView::StoreReady);
    let loaded = stored.push(RunEventView::ProjectLoaded);
    let locked = loaded.push(RunEventView::Locked);
    let prepared = locked.push(RunEventView::Prepared { hooks, skips });
    let installed = prepared.push(RunEventView::Installed);
    let unlocked = installed.push(RunEventView::Unlocked);
    let ran = unlocked.push(RunEventView::Ran);
    assert(prepared =~= seq![
        RunEventView::StoreReady,
        RunEventView::ProjectLoaded,
        RunEventView::Locked,
        RunEventView::Prepared { hooks, skips },
    ]);
    assert(stored.drop_last() =~= nothing);
    assert(loaded.drop_last() =~= stored);
    assert(locked.drop_last() =~= loaded);
    assert(prepared.drop_last() =~= locked);
    assert(possible(hook_id, hook_stage, nothing));
    assert(possible(hook_id, hook_stage, stored));
    assert(possible(hook_id, hook_stage, loaded));
    assert(possible(hook_id, hook_stage, locked));
    assert(possible(hook_id, hook_stage, prepared));
    assert(installed.drop_last() =~= prepared);
    assert(unlocked.drop_last() =~= installed);
    assert(ran.drop_last() =~= unlocked);
    if run::planned(hooks, hook_id, hook_stage, skips) is Run {
        assert(possible(hook_id, hook_stage, installed));
        assert(possible(hook_id, hook_stage, unlocked));
    }
}

/// What was reported when a run has come to a phase.
spec fn course(phase: RunPhase, events: Seq<RunEventView>) -> bool {
    let stored = seq![RunEventView::StoreReady];
    let loaded = stored.push(RunEventView::ProjectLoaded);
    let locked = loaded.push(RunEventView::Locked);
    let prepared = locked.push(events[3]);
    let installed = prepared.push(RunEventView::Installed);
    let unlocked = installed.push(RunEventView::Unlocked);
    match phase {
        RunPhase::Store => events.len() == 0,
        RunPhase::Project => events =~= stored,
        RunPhase::Lock => events =~= loaded,
        RunPhase::Prepare => events =~= locked,
        RunPhase::Install => events =~= prepared && events[3] is Prepared,
        RunPhase::Unlock => events =~= installed && events[3] is Prepared,
        RunPhase::Hooks => events =~= unlocked && events[3] is Prepared,
        RunPhase::Over => true,
    }
}

/// Whether a plan for the hooks that `event` reports runs any.
pub open spec fn plans_to_run(
    hook_id: Option<Seq<char>>,
    hook_stage: Option<Stage>,
    event: RunEventView,
) -> bool {
    event matches RunEventView::Prepared { hooks, skips } && run::planned(
        hooks,
        hook_id,
        hook_stage,
        skips,
    ) is Run
}

proof fn lemma_course(
    hook_id: Option<Seq<char>>,
    hook_stage: Option<Stage>,
    events: Seq<RunEventView>,
)
    requires
        possible(hook_id, hook_stage, events),
    ensures
        ({
            let state = after(hook_id, hook_stage, events).0;
            &&& state.hook_id == hook_id
            &&& state.hook_stage == hook_stage
            &&& course(state.phase, events)
            &&& state.phase == RunPhase::Install || state.phase == RunPhase::Unlock || state.phase
                == RunPhase::Hooks ==> plans_to_run(hook_id, hook_stage, events[3])
        }),
    decreases events.len(),
{
    if events.len() > 0 {
        let before = events.drop_last();
        lemma_course(hook_id, hook_stage, before);
        assert(before.push(events.last()) =~= events);
        assert(before.len() > 3 ==> before[3] == events[3]);
    }
}

/// A run exits in one of two ways unless it fails. It succeeds only once all was done: the
/// store was initialized, the project loaded, the store locked, the hooks prepared and
/// installed, the store unlocked, and the hooks run, in this order. And it ends for want of
/// hooks only after they were prepared.
pub proof fn a_run_succeeds_only_once_all_is_done(
    hook_id: Option<Seq<char>>,
    hook_stage: Option<Stage>,
    events: Seq<RunEventView>,
)
    requires
        possible(hook_id, hook_stage, events),
        after(hook_id, hook_stage, events).1 is Exit,
    ensures
        ({
            let status = after(hook_id, hook_stage, events).1->status;
            let prepared = seq![
                RunEventView::StoreReady,
                RunEventView::ProjectLoaded,
                RunEventView::Locked,
                events[3],
            ];
            let done = seq![
                RunEventView::Installed,
                RunEventView::Unlocked,
                RunEventView::Ran,
            ];
            &&& events[3] is Prepared
            &&& status == ExitStatus::Success || status == ExitStatus::Failure
            &&& status == ExitStatus::Success <==> plans_to_run(hook_id, hook_stage, events[3])
            &&& status == ExitStatus::Success ==> events == prepared + done
            &&& status == ExitStatus::Failure ==> events == prepared
        }),
{
    if events.len() > 0 {
        let before = events.drop_last();
        lemma_course(hook_id, hook_stage, before);
        assert(before.push(events.last()) =~= events);
        assert(before.len() > 3 ==> before[3] == events[3]);
    }
}

/// The first step that fails ends the run: it is reported, the status is that of an error, and
/// nothing follows.
pub proof fn the_first_failure_ends_the_run(
    hook_id: Option<Seq<char>>,
    hook_stage: Option<Stage>,
    events: Seq<RunEventView>,
    chain: Seq<Seq<char>>,
)
    requires
        possible(hook_id, hook_stage, events.push(RunEventView::Failed { chain })),
    ensures
        ({
            let now = after(
                hook_id,
                hook_stage,
                events.push(RunEventView::Failed { chain }),
            );
            &&& now.1 == (RunStepView::Fail { chain })
            &&& exit_status(now.1) == Some(ExitStatus::Error)
            &&& forall|event: RunEventView| !#[trigger] expected(now.0, event)
        }),
{
}

/// A run waits for something exactly as long as it has not exited.
pub proof fn a_run_waits_until_it_exits(
    hook_id: Option<Seq<char>>,
    hook_stage: Option<Stage>,
    events: Seq<RunEventView>,
)
    requires
        possible(hook_id, hook_stage, events),
    ensures
        ({
            let now = after(hook_id, hook_stage, events);
            exit_status(now.1) is None <==> exists|event: RunEventView| #[trigger]
                expected(now.0, event)
        }),
{
    let now = after(hook_id, hook_stage, events);
    lemma_lock_follows_the_phase(hook_id, hook_stage, events);
    if exit_status(now.1) is None {
        assert(expected(now.0, RunEventView::Failed { chain: Seq::empty() }));
    }
}

/// A run waits for what it asked for, or for its failure, and for nothing else.
pub proof fn a_run_waits_for_what_it_asked_for(
    hook_id: Option<Seq<char>>,
    hook_stage: Option<Stage>,
    events: Seq<RunEventView>,
    event: RunEventView,
)
    requires
        possible(hook_id, hook_stage, events),
    ensures
        ({
            let now = after(hook_id, hook_stage, events);
            expected(now.0, event) <==> match now.1 {
                RunStepView::InitStore => event is StoreReady || event is Failed,
                RunStepView::LoadProject => event is ProjectLoaded || event is Failed,
                RunStepView::Lock => event is Locked || event is Failed,
                RunStepView::Prepare => event is Prepared || event is Failed,
                RunStepView::Install(_) => event is Installed || event is Failed,
                RunStepView::Unlock => event is Unlocked || event is Failed,
                RunStepView::RunHooks { .. } => event is Ran || event is Failed,
                RunStepView::Exit { .. } => false,
                RunStepView::Fail { .. } => false,
            }
        }),
{
    lemma_lock_follows_the_phase(hook_id, hook_stage, events);
}

/// A run asks for one thing after the other: for the store, the project, the lock and the
/// hooks first of all, and for the lock to be given back once the hooks are installed.
pub proof fn a_run_asks_for_one_thing_after_the_other(
    hook_id: Option<Seq<char>>,
    hook_stage: Option<Stage>,
    events: Seq<RunEventView>,
)
    requires
        possible(hook_id, hook_stage, events),
    ensures
        ({
            let step = after(hook_id, hook_stage, events).1;
            &&& events.len() == 0 ==> step is InitStore
            &&& events.len() > 0 ==> match events.last() {
                RunEventView::StoreReady => step is LoadProject,
                RunEventView::ProjectLoaded => step is Lock,
                RunEventView::Locked => step is Prepare,
                RunEventView::Prepared { .. } => step is Install || step is Exit,
                RunEventView::Installed => step is Unlock,
                RunEventView::Unlocked => step is RunHooks,
                RunEventView::Ran => step == (RunStepView::Exit {
                    message: None,
                    status: ExitStatus::Success,
                }),
                RunEventView::Failed { chain } => step == (RunStepView::Fail { chain }),
            }
        }),
{
}

/// A run exits with the status that is decided on, and with that of an error if it fails.
/// Before that it does not exit.
pub proof fn a_run_exits_with_the_status_that_is_decided_on(step: RunStepView)
    ensures
        match step {
            RunStepView::Exit { status, .. } => exit_status(step) == Some(status),
            RunStepView::Fail { .. } => exit_status(step) == Some(ExitStatus::Error),
            _ => exit_status(step) is None,
        },
{
}

/// Whatever list of skips there is, a run skips what the list names and no more: a text is
/// among the skips that an event reports exactly if it is not empty and a piece of the list
/// trims to it.
pub proof fn a_run_skips_what_the_list_names(
    hooks: Vec<Hook>,
    skip: Option<String>,
    name: Seq<char>,
)
    ensures
        (RunEvent::Prepared { hooks, skip })@ matches RunEventView::Prepared {
            hooks: reported,
            skips,
        } && reported == hooks.deep_view() && (skips.contains(name) <==> (skip matches Some(list)
            && name.len() > 0 && exists|i: int|
            0 <= i < text::pieces(list@).len() && text::trimmed(
                #[trigger] text::pieces(list@)[i],
            ) == name)),
{
    run::what_the_list_names_is_skipped(skip.deep_view(), name);
}

} // verus!
