//! Choosing the hooks to run.

use vstd::prelude::*;

use crate::cli::ExitStatus;
use crate::config::ManifestHookView;
use crate::hook::{Hook, HookView};
use crate::seqs;
use crate::stage;
use crate::stage::Stage;
use crate::style;
use crate::text;

verus! {

/// Whether `id` is the id or the alias of a hook.
pub open spec fn is_called(hook: ManifestHookView, id: Seq<char>) -> bool {
    hook.id == id || hook.alias == Some(id)
}

/// Whether a hook runs at a stage: one that names no stages runs at all of them.
pub open spec fn runs_at(hook: ManifestHookView, stage: Stage) -> bool {
    match hook.stages {
        Some(stages) => stages.contains(stage),
        None => true,
    }
}

/// Whether a hook is to run, where hooks may be asked for by an id and by a stage.
pub open spec fn selected(
    hook: ManifestHookView,
    hook_id: Option<Seq<char>>,
    hook_stage: Option<Stage>,
) -> bool {
    &&& hook_id matches Some(id) ==> is_called(hook, id)
    &&& hook_stage matches Some(stage) ==> runs_at(hook, stage)
}

/// Those of `hooks` that are to run, in their order.
pub open spec fn selection(
    hooks: Seq<HookView>,
    hook_id: Option<Seq<char>>,
    hook_stage: Option<Stage>,
) -> Seq<HookView> {
    hooks.filter(|h: HookView| selected(h.config, hook_id, hook_stage))
}

/// Whether a hook is skipped: whether its id or its alias is among `skips`.
pub open spec fn skipped(hook: ManifestHookView, skips: Seq<Seq<char>>) -> bool {
    skips.contains(hook.id) || (hook.alias matches Some(alias) && skips.contains(alias))
}

/// Those of `hooks` that are to be installed, in their order.
pub open spec fn not_skipped(hooks: Seq<HookView>, skips: Seq<Seq<char>>) -> Seq<HookView> {
    hooks.filter(|h: HookView| !skipped(h.config, skips))
}

/// Whether `list` holds `wanted`.
fn contains_text(list: &Vec<String>, wanted: &str) -> (found: bool)
    ensures
        found == list.deep_view().contains(wanted@),
{
    let text = wanted.to_owned();
    for i in 0..list.len()
        invariant
            text@ == wanted@,
            forall|k: int| 0 <= k < i ==> list.deep_view()[k] != wanted@,
    {
        if list[i] == text {
            assert(list.deep_view()[i as int] == wanted@);
            return true;
        }
    }
    false
}

/// Whether two texts are the same.
fn same_text(one: &str, other: &str) -> (same: bool)
    ensures
        same == (one@ == other@),
{
    one.to_owned() == other.to_owned()
}

impl Hook {
    /// Whether the hook is to run, where hooks may be asked for by an id and by a stage.
    pub fn is_selected(&self, hook_id: &Option<String>, hook_stage: Option<Stage>) -> (yes: bool)
        ensures
            yes == selected(self@.config, hook_id.deep_view(), hook_stage),
    {
        if let Some(id) = hook_id {
            let called = same_text(self.id(), id.as_str()) || match self.alias() {
                Some(alias) => same_text(alias, id.as_str()),
                None => false,
            };
            if !called {
                return false;
            }
        }
        match (hook_stage, self.stages()) {
            (Some(stage), Some(stages)) => {
                assert(stages.deep_view() =~= stages@);
                stage::contains_stage(stages, stage)
            },
            _ => true,
        }
    }

    /// Whether the hook's id or its alias is among `skips`.
    pub fn is_skipped(&self, skips: &Vec<String>) -> (yes: bool)
        ensures
            yes == skipped(self@.config, skips.deep_view()),
    {
        if contains_text(skips, self.id()) {
            return true;
        }
        match self.alias() {
            Some(alias) => contains_text(skips, alias),
            None => false,
        }
    }
}

/// The entries of the comma separated list `skip`, if there is one.
pub open spec fn skip_entries(skip: Option<Seq<char>>) -> Seq<Seq<char>> {
    match skip {
        Some(list) => text::entries(list),
        None => Seq::empty(),
    }
}

/// The ids and aliases of the hooks to skip: `skip` is a comma separated list of them, if
/// there is one.
pub fn get_skips(skip: Option<&str>) -> (skips: Vec<String>)
    ensures
        skips.deep_view() == skip_entries(skip.deep_view()),
{
    match skip {
        Some(list) => text::list_entries(list),
        None => {
            let skips: Vec<String> = Vec::new();
            assert(skips.deep_view() =~= Seq::<Seq<char>>::empty());
            skips
        },
    }
}

/// Those of `hooks` that are to run.
pub fn select_hooks(
    hooks: &Vec<Hook>,
    hook_id: &Option<String>,
    hook_stage: Option<Stage>,
) -> (found: Vec<Hook>)
    ensures
        found.deep_view() == selection(hooks.deep_view(), hook_id.deep_view(), hook_stage),
{
    let ghost all = hooks.deep_view();
    let ghost chosen = |h: HookView| selected(h.config, hook_id.deep_view(), hook_stage);
    let mut found: Vec<Hook> = Vec::new();
    proof {
        seqs::lemma_filter_empty(chosen);
        assert(all.take(0) =~= Seq::<HookView>::empty());
        assert(found.deep_view() =~= all.take(0).filter(chosen));
    }
    for i in 0..hooks.len()
        invariant
            all == hooks.deep_view(),
            chosen == (|h: HookView| selected(h.config, hook_id.deep_view(), hook_stage)),
            found.deep_view() == all.take(i as int).filter(chosen),
    {
        let ghost before = found.deep_view();
        proof {
            assert(all.take(i + 1) =~= all.take(i as int).push(all[i as int]));
            seqs::lemma_filter_push(all.take(i as int), all[i as int], chosen);
        }
        if hooks[i].is_selected(hook_id, hook_stage) {
            found.push(hooks[i].clone());
            assert(found.deep_view() =~= before.push(all[i as int]));
        }
    }
    assert(all.take(all.len() as int) =~= all);
    found
}

/// Those of `hooks` that are to be installed.
pub fn hooks_to_install(hooks: &Vec<Hook>, skips: &Vec<String>) -> (found: Vec<Hook>)
    ensures
        found.deep_view() == not_skipped(hooks.deep_view(), skips.deep_view()),
{
    let ghost all = hooks.deep_view();
    let ghost chosen = |h: HookView| !skipped(h.config, skips.deep_view());
    let mut found: Vec<Hook> = Vec::new();
    proof {
        seqs::lemma_filter_empty(chosen);
        assert(all.take(0) =~= Seq::<HookView>::empty());
        assert(found.deep_view() =~= all.take(0).filter(chosen));
    }
    for i in 0..hooks.len()
        invariant
            all == hooks.deep_view(),
            chosen == (|h: HookView| !skipped(h.config, skips.deep_view())),
            found.deep_view() == all.take(i as int).filter(chosen),
    {
        let ghost before = found.deep_view();
        proof {
            assert(all.take(i + 1) =~= all.take(i as int).push(all[i as int]));
            seqs::lemma_filter_push(all.take(i as int), all[i as int], chosen);
        }
        if !hooks[i].is_skipped(skips) {
            found.push(hooks[i].clone());
            assert(found.deep_view() =~= before.push(all[i as int]));
        }
    }
    assert(all.take(all.len() as int) =~= all);
    found
}

/// What a run does.
#[derive(Debug)]
pub enum RunPlan {
    /// There is no hook of the id that was asked for: say so, and do nothing.
    NotFound { message: String },
    /// Install the hooks `to_install`, then run the hooks `hooks` but for those of `skips`.
    Run { to_install: Vec<Hook>, hooks: Vec<Hook>, skips: Vec<String> },
}

/// What a [`RunPlan`] holds.
pub enum RunPlanView {
    NotFound { message: Seq<char> },
    Run { to_install: Seq<HookView>, hooks: Seq<HookView>, skips: Seq<Seq<char>> },
}

impl View for RunPlan {
    type V = RunPlanView;

    open spec fn view(&self) -> RunPlanView {
        match self {
            RunPlan::NotFound { message } => RunPlanView::NotFound { message: message@ },
            RunPlan::Run { to_install, hooks, skips } => RunPlanView::Run {
                to_install: to_install.deep_view(),
                hooks: hooks.deep_view(),
                skips: skips.deep_view(),
            },
        }
    }
}

impl RunPlan {
    /// The status that the run ends with if nothing else goes wrong.
    pub fn exit_status(&self) -> (status: ExitStatus)
        ensures
            status == match self@ {
                RunPlanView::NotFound { .. } => ExitStatus::Failure,
                RunPlanView::Run { .. } => ExitStatus::Success,
            },
    {
        match self {
            RunPlan::NotFound { .. } => ExitStatus::Failure,
            RunPlan::Run { .. } => ExitStatus::Success,
        }
    }
}

/// The message that there is no hook of an id, or none of it at a stage.
pub open spec fn not_found_message(id: Seq<char>, stage: Option<Stage>) -> Seq<char> {
    match stage {
        Some(stage) => "No hook found for id `"@ + style::in_cyan(id) + "` and stage `"@
            + style::in_cyan(stage::stage_name(stage)) + "`"@,
        None => "No hook found for id `"@ + style::in_cyan(id) + "`"@,
    }
}

/// Says that there is no hook of an id, or none of it at a stage.
fn say_not_found(id: &str, stage: Option<Stage>) -> (message: String)
    ensures
        message@ == not_found_message(id@, stage),
{
    let mut message = "No hook found for id `".to_owned();
    message.append(style::cyan(id).as_str());
    if let Some(stage) = stage {
        message.append("` and stage `");
        message.append(style::cyan(stage.as_str()).as_str());
    }
    message.append("`");
    message
}

/// What a run of `hooks` does: it fails if an id was asked for that no hook has, and else it
/// runs what was asked for and installs those that are not skipped.
pub open spec fn planned(
    hooks: Seq<HookView>,
    hook_id: Option<Seq<char>>,
    hook_stage: Option<Stage>,
    skips: Seq<Seq<char>>,
) -> RunPlanView {
    let chosen = selection(hooks, hook_id, hook_stage);
    match hook_id {
        Some(id) if chosen.len() == 0 => RunPlanView::NotFound {
            message: not_found_message(id, hook_stage),
        },
        _ => RunPlanView::Run { to_install: not_skipped(chosen, skips), hooks: chosen, skips },
    }
}

/// Decides what a run does with the hooks of a project: `hook_id` and `hook_stage` may ask
/// for some of them, and `skip` is the comma separated list of those to skip, if there is one.
pub fn run(
    hooks: &Vec<Hook>,
    hook_id: &Option<String>,
    hook_stage: Option<Stage>,
    skip: Option<&str>,
) -> (plan: RunPlan)
    ensures
        plan@ == planned(
            hooks.deep_view(),
            hook_id.deep_view(),
            hook_stage,
            skip_entries(skip.deep_view()),
        ),
{
    let chosen = select_hooks(hooks, hook_id, hook_stage);
    if chosen.len() == 0 {
        if let Some(id) = hook_id {
            return RunPlan::NotFound { message: say_not_found(id.as_str(), hook_stage) };
        }
    }
    let skips = get_skips(skip);
    let to_install = hooks_to_install(&chosen, &skips);
    RunPlan::Run { to_install, hooks: chosen, skips }
}

/// A run that asks for nothing in particular runs every hook.
pub proof fn without_a_request_every_hook_runs(hooks: Seq<HookView>, skips: Seq<Seq<char>>)
    ensures
        selection(hooks, None, None) == hooks,
        planned(hooks, None, None, skips) == (RunPlanView::Run {
            to_install: not_skipped(hooks, skips),
            hooks,
            skips,
        }),
{
    seqs::lemma_filter_all(hooks, |h: HookView| selected(h.config, None, None));
}

/// To ask for an id and a stage is to ask for the id, and among what is found for the stage.
pub proof fn a_request_for_both_is_one_after_the_other(
    hooks: Seq<HookView>,
    hook_id: Option<Seq<char>>,
    hook_stage: Option<Stage>,
)
    ensures
        selection(selection(hooks, hook_id, None), None, hook_stage) == selection(
            hooks,
            hook_id,
            hook_stage,
        ),
{
    seqs::lemma_filter_twice(
        hooks,
        |h: HookView| selected(h.config, hook_id, None),
        |h: HookView| selected(h.config, None, hook_stage),
        |h: HookView| selected(h.config, hook_id, hook_stage),
    );
}

/// A run finds nothing exactly if it asks for an id, and no hook with this id or alias runs
/// at the stage that it asks for.
pub proof fn a_run_finds_nothing_exactly_if_no_hook_answers(
    hooks: Seq<HookView>,
    hook_id: Option<Seq<char>>,
    hook_stage: Option<Stage>,
    skips: Seq<Seq<char>>,
)
    ensures
        planned(hooks, hook_id, hook_stage, skips) is NotFound <==> hook_id is Some && forall|i: int|
            0 <= i < hooks.len() ==> !selected(
                (#[trigger] hooks[i]).config,
                hook_id,
                hook_stage,
            ),
{
    let chosen = |h: HookView| selected(h.config, hook_id, hook_stage);
    seqs::lemma_filter_none(hooks, chosen);
    assert((forall|i: int| 0 <= i < hooks.len() ==> !chosen(#[trigger] hooks[i])) <==> (forall|
        i: int,
    |
        0 <= i < hooks.len() ==> !selected((#[trigger] hooks[i]).config, hook_id, hook_stage)));
}

/// What a run installs is among what it runs, and is not skipped; what it runs is among the
/// hooks of the project, and is what it was asked for.
pub proof fn a_run_installs_only_what_it_runs(
    hooks: Seq<HookView>,
    hook_id: Option<Seq<char>>,
    hook_stage: Option<Stage>,
    skips: Seq<Seq<char>>,
)
    requires
        planned(hooks, hook_id, hook_stage, skips) is Run,
    ensures
        ({
            let plan = planned(hooks, hook_id, hook_stage, skips);
            let run = plan->hooks;
            let installed = plan->to_install;
            &&& forall|i: int|
                0 <= i < installed.len() ==> run.contains(#[trigger] installed[i]) && !skipped(
                    installed[i].config,
                    skips,
                )
            &&& forall|i: int|
                0 <= i < run.len() ==> hooks.contains(#[trigger] run[i]) && selected(
                    run[i].config,
                    hook_id,
                    hook_stage,
                )
        }),
{
    let plan = planned(hooks, hook_id, hook_stage, skips);
    let run = plan->hooks;
    let installed = plan->to_install;
    assert forall|i: int| 0 <= i < installed.len() implies run.contains(#[trigger] installed[i])
        && !skipped(installed[i].config, skips) by {
        seqs::lemma_filter_keeps(run, |h: HookView| !skipped(h.config, skips), i);
    }
    assert forall|i: int| 0 <= i < run.len() implies hooks.contains(#[trigger] run[i]) && selected(
        run[i].config,
        hook_id,
        hook_stage,
    ) by {
        seqs::lemma_filter_keeps(
            hooks,
            |h: HookView| selected(h.config, hook_id, hook_stage),
            i,
        );
    }
}

/// Whether a hook answers a request: it has the id that is asked for, as its id or as its
/// alias, and some position of its list of stages, if it has one, holds the stage that is
/// asked for.
pub open spec fn answers(
    hook: ManifestHookView,
    hook_id: Option<Seq<char>>,
    hook_stage: Option<Stage>,
) -> bool {
    &&& hook_id matches Some(id) ==> (hook.id == id || (hook.alias matches Some(alias) && alias
        == id))
    &&& hook_stage matches Some(stage) ==> (hook.stages matches Some(stages) ==> exists|i: int|
        0 <= i < stages.len() && #[trigger] stages[i] == stage)
}

/// Whether a list names a hook: some position of it holds the hook's id or its alias.
pub open spec fn names(list: Seq<Seq<char>>, hook: ManifestHookView) -> bool {
    exists|i: int|
        0 <= i < list.len() && (#[trigger] list[i] == hook.id || hook.alias == Some(list[i]))
}

/// A hook is selected exactly if it answers the request.
pub proof fn a_hook_is_selected_exactly_if_it_answers(
    hook: ManifestHookView,
    hook_id: Option<Seq<char>>,
    hook_stage: Option<Stage>,
)
    ensures
        selected(hook, hook_id, hook_stage) <==> answers(hook, hook_id, hook_stage),
{
    if let (Some(stage), Some(stages)) = (hook_stage, hook.stages) {
        if stages.contains(stage) {
            assert(stages[stages.index_of(stage)] == stage);
        }
    }
}

/// A hook that names stages is selected for a stage exactly if some position of its list holds
/// that stage, and one that names none is selected for every stage.
pub proof fn a_hook_is_selected_for_each_of_its_stages(hook: ManifestHookView, stage: Stage)
    ensures
        match hook.stages {
            Some(stages) => selected(hook, None, Some(stage)) <==> exists|i: int|
                0 <= i < stages.len() && #[trigger] stages[i] == stage,
            None => selected(hook, None, Some(stage)),
        },
{
    a_hook_is_selected_exactly_if_it_answers(hook, None, Some(stage));
}

/// A hook is skipped exactly if the list names it.
pub proof fn a_hook_is_skipped_exactly_if_it_is_named(
    hook: ManifestHookView,
    skips: Seq<Seq<char>>,
)
    ensures
        skipped(hook, skips) <==> names(skips, hook),
{
    if skips.contains(hook.id) {
        assert(skips[skips.index_of(hook.id)] == hook.id);
    }
    if let Some(alias) = hook.alias {
        if skips.contains(alias) {
            assert(skips[skips.index_of(alias)] == alias);
        }
    }
}

/// The hooks that answer a request are selected, each at its place and as often as it is
/// there, and no others: those at the positions `at`.
pub proof fn every_hook_that_answers_is_selected(
    hooks: Seq<HookView>,
    hook_id: Option<Seq<char>>,
    hook_stage: Option<Stage>,
) -> (at: Seq<int>)
    ensures
        seqs::picks(hooks, selection(hooks, hook_id, hook_stage), at),
        forall|i: int| #[trigger]
            at.contains(i) <==> 0 <= i < hooks.len() && answers(
                hooks[i].config,
                hook_id,
                hook_stage,
            ),
{
    let chosen = |h: HookView| selected(h.config, hook_id, hook_stage);
    let at = seqs::positions(hooks, chosen);
    seqs::lemma_filter_picks(hooks, chosen);
    assert forall|i: int| #[trigger]
        at.contains(i) <==> 0 <= i < hooks.len() && answers(
            hooks[i].config,
            hook_id,
            hook_stage,
        ) by {
        a_hook_is_selected_exactly_if_it_answers(hooks[i].config, hook_id, hook_stage);
    }
    at
}

/// The hooks that a list does not name are installed, each at its place and as often as it is
/// there, and no others: those at the positions `at`.
pub proof fn every_hook_that_is_not_named_is_installed(
    hooks: Seq<HookView>,
    skips: Seq<Seq<char>>,
) -> (at: Seq<int>)
    ensures
        seqs::picks(hooks, not_skipped(hooks, skips), at),
        forall|i: int| #[trigger]
            at.contains(i) <==> 0 <= i < hooks.len() && !names(skips, hooks[i].config),
{
    let chosen = |h: HookView| !skipped(h.config, skips);
    let at = seqs::positions(hooks, chosen);
    seqs::lemma_filter_picks(hooks, chosen);
    assert forall|i: int| #[trigger]
        at.contains(i) <==> 0 <= i < hooks.len() && !names(skips, hooks[i].config) by {
        a_hook_is_skipped_exactly_if_it_is_named(hooks[i].config, skips);
    }
    at
}

/// Whatever is asked for, a run runs every hook that answers the request, and installs every
/// one of these that is not to be skipped, each in its order and as often as it is there, and
/// no others. It runs those at the positions `at.0` of `hooks`, and installs those at the
/// positions `at.1` of what it runs.
pub proof fn a_run_runs_and_installs_all_that_it_should(
    hooks: Seq<HookView>,
    hook_id: Option<Seq<char>>,
    hook_stage: Option<Stage>,
    skips: Seq<Seq<char>>,
) -> (at: (Seq<int>, Seq<int>))
    requires
        hook_id is None || exists|i: int|
            0 <= i < hooks.len() && answers(#[trigger] hooks[i].config, hook_id, hook_stage),
    ensures
        ({
            let plan = planned(hooks, hook_id, hook_stage, skips);
            &&& plan is Run
            &&& plan->skips == skips
            &&& seqs::picks(hooks, plan->hooks, at.0)
            &&& seqs::picks(plan->hooks, plan->to_install, at.1)
            &&& forall|i: int| #[trigger]
                at.0.contains(i) <==> 0 <= i < hooks.len() && answers(
                    hooks[i].config,
                    hook_id,
                    hook_stage,
                )
            &&& forall|i: int| #[trigger]
                at.1.contains(i) <==> 0 <= i < plan->hooks.len() && !names(
                    skips,
                    plan->hooks[i].config,
                )
        }),
{
    let run = every_hook_that_answers_is_selected(hooks, hook_id, hook_stage);
    let chosen = selection(hooks, hook_id, hook_stage);
    if hook_id is Some {
        let i = choose|i: int|
            0 <= i < hooks.len() && answers(#[trigger] hooks[i].config, hook_id, hook_stage);
        assert(run.contains(i));
        assert(chosen.len() > 0);
    }
    let installed = every_hook_that_is_not_named_is_installed(chosen, skips);
    (run, installed)
}

/// A run that asks for an id that no hook answers to says so: it names the id and the stage
/// that were asked for, in cyan.
pub proof fn a_run_that_finds_nothing_says_what_it_looked_for(
    hooks: Seq<HookView>,
    id: Seq<char>,
    hook_stage: Option<Stage>,
    skips: Seq<Seq<char>>,
)
    requires
        forall|i: int|
            0 <= i < hooks.len() ==> !answers(
                #[trigger] hooks[i].config,
                Some(id),
                hook_stage,
            ),
    ensures
        planned(hooks, Some(id), hook_stage, skips) matches RunPlanView::NotFound { message }
            && message == match hook_stage {
            None => "No hook found for id `"@ + "\x1b[36m"@ + id + "\x1b[39m"@ + "`"@,
            Some(stage) => "No hook found for id `"@ + "\x1b[36m"@ + id + "\x1b[39m"@
                + "` and stage `"@ + "\x1b[36m"@ + stage::stage_name(stage) + "\x1b[39m"@ + "`"@,
        },
{
    let at = every_hook_that_answers_is_selected(hooks, Some(id), hook_stage);
    let chosen = selection(hooks, Some(id), hook_stage);
    if chosen.len() > 0 {
        assert(at.contains(at[0]));
        assert(answers(hooks[at[0]].config, Some(id), hook_stage));
    }
    let message = not_found_message(id, hook_stage);
    match hook_stage {
        None => {
            assert(message =~= "No hook found for id `"@ + "\x1b[36m"@ + id + "\x1b[39m"@ + "`"@);
        },
        Some(stage) => {
            assert(message =~= "No hook found for id `"@ + "\x1b[36m"@ + id + "\x1b[39m"@
                + "` and stage `"@ + "\x1b[36m"@ + stage::stage_name(stage) + "\x1b[39m"@ + "`"@);
        },
    }
}

/// What is skipped is what the comma separated list names, where there is one: a text is
/// among the skips exactly if it is not empty and a piece of the list trims to it.
pub proof fn what_the_list_names_is_skipped(skip: Option<Seq<char>>, name: Seq<char>)
    ensures
        skip_entries(skip).contains(name) <==> (skip matches Some(list) && name.len() > 0
            && exists|i: int|
            0 <= i < text::pieces(list).len() && text::trimmed(#[trigger] text::pieces(list)[i])
                == name),
        skip matches Some(list) ==> skip_entries(skip) == text::entries(list),
        skip is None ==> skip_entries(skip).len() == 0,
{
    if let Some(list) = skip {
        text::an_entry_is_a_trimmed_piece(list, name);
    }
}

} // verus!
