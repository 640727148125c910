use owo_colors::OwoColorize;
use pre_commit::cli::ExitStatus;
use pre_commit::config::ManifestHook;
use pre_commit::hook::Hook;
use pre_commit::language::Language;
use pre_commit::run::{get_skips, hooks_to_install, run, select_hooks, RunPlan};
use pre_commit::session::{RunEvent, RunStep, Session};
use pre_commit::stage::{contains_stage, Stage};

fn hook(id: &str, alias: Option<&str>, stages: Option<Vec<Stage>>) -> Hook {
    let config = ManifestHook {
        id: id.to_string(),
        name: id.to_string(),
        language: Language::System,
        alias: alias.map(|a| a.to_string()),
        files: None,
        exclude: None,
        types: None,
        stages,
        language_version: None,
        additional_dependencies: None,
    };
    Hook::new(config, None)
}

fn hooks() -> Vec<Hook> {
    vec![
        hook("a", None, None),
        hook("b", Some("a"), Some(vec![Stage::PrePush])),
        hook("c", Some("d"), Some(vec![Stage::PreCommit, Stage::Manual])),
        hook("a", None, Some(vec![])),
    ]
}

fn ids(hooks: &Vec<Hook>) -> Vec<&str> {
    hooks.iter().map(|h| h.id()).collect()
}

fn id(text: &str) -> Option<String> {
    Some(text.to_string())
}

#[test]
fn all_hooks_run_unless_some_are_asked_for() {
    assert_eq!(ids(&select_hooks(&hooks(), &None, None)), vec!["a", "b", "c", "a"]);
}

#[test]
fn hooks_are_found_by_id_and_by_alias() {
    assert_eq!(ids(&select_hooks(&hooks(), &id("a"), None)), vec!["a", "b", "a"]);
    assert_eq!(ids(&select_hooks(&hooks(), &id("d"), None)), vec!["c"]);
    assert!(select_hooks(&hooks(), &id("e"), None).is_empty());
}

#[test]
fn hooks_are_found_by_stage() {
    assert_eq!(ids(&select_hooks(&hooks(), &None, Some(Stage::PrePush))), vec!["a", "b"]);
    assert_eq!(ids(&select_hooks(&hooks(), &None, Some(Stage::Manual))), vec!["a", "c"]);
    assert_eq!(ids(&select_hooks(&hooks(), &id("a"), Some(Stage::PreCommit))), vec!["a"]);
}

#[test]
fn an_id_and_a_stage_are_one_request_after_the_other() {
    let by_id = select_hooks(&hooks(), &id("a"), None);
    let then_by_stage = select_hooks(&by_id, &None, Some(Stage::PrePush));
    let at_once = select_hooks(&hooks(), &id("a"), Some(Stage::PrePush));
    assert_eq!(ids(&then_by_stage), vec!["a", "b"]);
    assert_eq!(ids(&at_once), ids(&then_by_stage));
}

#[test]
fn skips_are_a_comma_separated_list() {
    assert_eq!(get_skips(Some(" a,b , ,c")), vec!["a", "b", "c"]);
    assert!(get_skips(Some("")).is_empty());
    assert!(get_skips(None).is_empty());
}

#[test]
fn skipped_hooks_are_not_installed() {
    let skips = vec!["a".to_string()];
    assert_eq!(ids(&hooks_to_install(&hooks(), &skips)), vec!["c"]);
    let skips = vec!["d".to_string(), "b".to_string()];
    assert_eq!(ids(&hooks_to_install(&hooks(), &skips)), vec!["a", "a"]);
    assert_eq!(ids(&hooks_to_install(&hooks(), &vec![])), vec!["a", "b", "c", "a"]);
}

#[test]
fn skipped_hooks_stay_in_the_run() {
    let plan = run(&hooks(), &None, None, Some("c, x"));
    assert_eq!(plan.exit_status(), ExitStatus::Success);
    match plan {
        RunPlan::Run { to_install, hooks, skips } => {
            assert_eq!(ids(&to_install), vec!["a", "b", "a"]);
            assert_eq!(ids(&hooks), vec!["a", "b", "c", "a"]);
            assert_eq!(skips, vec!["c", "x"]);
        }
        RunPlan::NotFound { .. } => panic!("there are hooks"),
    }
}

#[test]
fn an_unknown_id_fails_the_run() {
    let plan = run(&hooks(), &id("e"), None, None);
    assert_eq!(plan.exit_status(), ExitStatus::Failure);
    match plan {
        RunPlan::NotFound { message } => {
            assert_eq!(message, "No hook found for id `\x1b[36me\x1b[39m`");
            assert_eq!(message, format!("No hook found for id `{}`", "e".cyan()));
        }
        RunPlan::Run { .. } => panic!("there is no such hook"),
    }
}

#[test]
fn an_id_at_the_wrong_stage_fails_the_run() {
    match run(&hooks(), &id("d"), Some(Stage::PrepareCommitMsg), None) {
        RunPlan::NotFound { message } => assert_eq!(
            message,
            format!(
                "No hook found for id `{}` and stage `{}`",
                "d".cyan(),
                "prepare-commit-msg".cyan()
            )
        ),
        RunPlan::Run { .. } => panic!("the hook does not run at this stage"),
    }
}

#[test]
fn a_stage_without_hooks_is_no_failure() {
    let only = vec![hook("c", None, Some(vec![Stage::Manual]))];
    match run(&only, &None, Some(Stage::PrePush), None) {
        RunPlan::Run { to_install, hooks, skips } => {
            assert!(to_install.is_empty());
            assert!(hooks.is_empty());
            assert!(skips.is_empty());
        }
        RunPlan::NotFound { .. } => panic!("no id was asked for"),
    }
}

#[test]
fn stages_are_looked_up_by_value() {
    assert!(contains_stage(&vec![Stage::Manual, Stage::PrePush], Stage::PrePush));
    assert!(!contains_stage(&vec![Stage::Manual], Stage::PrePush));
    assert_eq!(Stage::PreMergeCommit.as_str(), "pre-merge-commit");
}

#[test]
fn a_run_installs_under_the_lock_and_runs_without_it() {
    let (mut session, step) = Session::start(id("a"), None);
    assert!(matches!(step, RunStep::InitStore));
    assert!(session.expects(&RunEvent::StoreReady));
    assert!(!session.expects(&RunEvent::ProjectLoaded));
    assert!(matches!(session.step(RunEvent::StoreReady), RunStep::LoadProject));
    assert!(session.expects(&RunEvent::ProjectLoaded));
    let step = session.step(RunEvent::ProjectLoaded);
    assert!(matches!(step, RunStep::Lock));
    assert_eq!(step.status(), None);
    assert!(session.expects(&RunEvent::Locked));
    assert!(!session.expects(&RunEvent::Ran));
    assert!(matches!(session.step(RunEvent::Locked), RunStep::Prepare));
    let event = RunEvent::Prepared { hooks: hooks(), skip: Some("b".to_string()) };
    assert!(session.expects(&event));
    match session.step(event) {
        RunStep::Install(to_install) => assert_eq!(ids(&to_install), vec!["a", "a"]),
        other => panic!("{:?}", other),
    }
    assert!(matches!(session.step(RunEvent::Installed), RunStep::Unlock));
    match session.step(RunEvent::Unlocked) {
        RunStep::RunHooks { hooks, skips } => {
            assert_eq!(ids(&hooks), vec!["a", "b", "a"]);
            assert_eq!(skips, vec!["b"]);
        }
        other => panic!("{:?}", other),
    }
    match session.step(RunEvent::Ran) {
        RunStep::Exit { message, status } => {
            assert_eq!(message, None);
            assert_eq!(status, ExitStatus::Success);
        }
        other => panic!("{:?}", other),
    }
    assert!(!session.expects(&RunEvent::Ran));
}

#[test]
fn a_run_that_finds_nothing_ends_at_once() {
    let (mut session, _) = Session::start(id("e"), None);
    session.step(RunEvent::StoreReady);
    session.step(RunEvent::ProjectLoaded);
    session.step(RunEvent::Locked);
    let step = session.step(RunEvent::Prepared { hooks: hooks(), skip: None });
    assert_eq!(step.status(), Some(ExitStatus::Failure));
    match step {
        RunStep::Exit { message, status } => {
            assert_eq!(message, Some("No hook found for id `\x1b[36me\x1b[39m`".to_string()));
            assert_eq!(status, ExitStatus::Failure);
        }
        other => panic!("{:?}", other),
    }
    assert!(!session.expects(&RunEvent::Installed));
}

fn failed() -> RunEvent {
    RunEvent::Failed { chain: vec!["no lock".to_string(), "no space".to_string()] }
}

fn course() -> Vec<RunEvent> {
    vec![
        RunEvent::StoreReady,
        RunEvent::ProjectLoaded,
        RunEvent::Locked,
        RunEvent::Prepared { hooks: hooks(), skip: None },
        RunEvent::Installed,
        RunEvent::Unlocked,
    ]
}

#[test]
fn each_step_of_a_run_may_fail() {
    for steps in 0..=course().len() {
        let (mut session, _) = Session::start(None, None);
        for event in course().into_iter().take(steps) {
            assert!(session.expects(&event));
            assert_eq!(session.step(event).status(), None);
        }
        assert!(session.expects(&failed()));
        let step = session.step(failed());
        assert_eq!(step.status(), Some(ExitStatus::Error));
        match step {
            RunStep::Fail { chain } => assert_eq!(chain, vec!["no lock", "no space"]),
            other => panic!("{:?}", other),
        }
        for event in course() {
            assert!(!session.expects(&event));
        }
        assert!(!session.expects(&failed()));
    }
}
