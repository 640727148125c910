use pre_commit::config::{
    ConfigLocalRepo, ConfigRemoteHook, ConfigRemoteRepo, ConfigRepo, ConfigWire, Manifest,
    ManifestHook,
};
use pre_commit::hook::{Hook, Project, Repo};
use pre_commit::language::Language;
use pre_commit::paths::Platform;
use pre_commit::prepare::{Action, Event, Stored};
use pre_commit::stage::Stage;

fn offered(id: &str, language: Language) -> ManifestHook {
    ManifestHook {
        id: id.to_string(),
        name: id.to_string(),
        language,
        alias: None,
        files: None,
        exclude: None,
        types: None,
        stages: None,
        language_version: None,
        additional_dependencies: None,
    }
}

fn wanted(id: &str, dependencies: Option<Vec<&str>>) -> ConfigRemoteHook {
    ConfigRemoteHook {
        id: id.to_string(),
        name: None,
        language: None,
        alias: None,
        files: None,
        exclude: None,
        types: None,
        stages: None,
        language_version: None,
        additional_dependencies: dependencies
            .map(|list| list.iter().map(|d| d.to_string()).collect()),
    }
}

fn remote(repo: &str, hooks: Vec<ConfigRemoteHook>) -> ConfigRepo {
    ConfigRepo::Remote(ConfigRemoteRepo {
        repo: repo.to_string(),
        rev: "v1".to_string(),
        hooks,
    })
}

fn local(hooks: Vec<ManifestHook>) -> ConfigRepo {
    ConfigRepo::Local(ConfigLocalRepo { hooks })
}

fn project(repos: Vec<ConfigRepo>) -> Project {
    let config = ConfigWire {
        repos,
        default_language_version: vec![(Language::Python, "3.12".to_string())],
        default_stages: Some(vec![Stage::PreCommit]),
    };
    match Project::current("/work", Ok(config)) {
        Ok(project) => project,
        Err(error) => panic!("{}", error.message()),
    }
}

fn stored(repo: usize, path: &str, hooks: Vec<ManifestHook>) -> Event {
    let manifest = Ok(Manifest { hooks });
    Event::Repo { repo, stored: Ok(Stored { path: path.to_string(), manifest }) }
}

fn finished(action: Action) -> Vec<Hook> {
    match action {
        Action::Finish(hooks) => hooks,
        other => panic!("not finished: {:?}", other),
    }
}

fn ids(hooks: &Vec<Hook>) -> Vec<&str> {
    hooks.iter().map(|h| h.id()).collect()
}

fn failed(action: Action) -> String {
    match action {
        Action::Fail(error) => error.message(),
        other => panic!("not failed: {:?}", other),
    }
}

fn two_remotes_and_locals() -> Project {
    project(vec![
        local(vec![offered("l1", Language::System), offered("l2", Language::Python)]),
        remote("https://h/one", vec![wanted("a", None), wanted("b", Some(vec!["dep"]))]),
        ConfigRepo::Meta,
        remote("https://h/two", vec![wanted("c", None), wanted("d", Some(vec![]))]),
        local(vec![offered("l3", Language::Fail)]),
    ])
}

fn one() -> Vec<ManifestHook> {
    vec![offered("a", Language::Python), offered("b", Language::Node)]
}

fn two() -> Vec<ManifestHook> {
    vec![offered("d", Language::System), offered("c", Language::System)]
}

#[test]
fn a_project_without_repos_has_no_hooks() {
    let project = project(vec![]);
    let (preparation, action) = project.hooks();
    assert!(finished(action).is_empty());
    assert!(!preparation.awaits(&Event::Local { path: Ok("/p".to_string()) }));
}

#[test]
fn hooks_are_prepared_phase_by_phase() {
    let project = two_remotes_and_locals();
    let (mut preparation, action) = project.hooks();
    assert!(matches!(action, Action::PrepareRepos(repos) if repos == vec![1, 3]));
    assert_eq!(preparation.remote_repo(3).unwrap().repo, "https://h/two");
    assert!(preparation.remote_repo(0).is_none());
    assert!(preparation.remote_repo(5).is_none());

    let event = stored(3, "/s/two", two());
    assert!(preparation.awaits(&event));
    assert!(!preparation.awaits(&stored(0, "/s", vec![])));
    assert!(matches!(preparation.step(event), Action::Await));
    assert!(!preparation.awaits(&stored(3, "/s/two", two())));

    let deferred = match preparation.step(stored(1, "/s/one", one())) {
        Action::PrepareEnvironments(deferred) => deferred,
        other => panic!("{:?}", other),
    };
    assert_eq!(deferred.len(), 2);
    assert_eq!((deferred[0].task, deferred[0].repo, deferred[0].hook.id.as_str()), (0, 3, "d"));
    assert_eq!((deferred[1].task, deferred[1].repo, deferred[1].hook.id.as_str()), (1, 1, "b"));
    assert_eq!(deferred[1].hook.additional_dependencies, Some(vec!["dep".to_string()]));

    let event = Event::Environment { task: 1, path: Ok("/s/b".to_string()) };
    assert!(preparation.awaits(&event));
    assert!(matches!(preparation.step(event), Action::Await));
    let event = Event::Environment { task: 0, path: Ok("/s/d".to_string()) };
    assert!(preparation.awaits(&event));
    let hook = match preparation.step(event) {
        Action::PrepareLocal(hook) => hook,
        other => panic!("{:?}", other),
    };
    assert_eq!(hook.id, "l2");
    assert_eq!(hook.language_version, Some("3.12".to_string()));

    let event = Event::Local { path: Ok("/s/l2".to_string()) };
    assert!(preparation.awaits(&event));
    let hooks = finished(preparation.step(event));
    assert_eq!(ids(&hooks), vec!["c", "a", "b", "d", "l1", "l2", "l3"]);
    let paths: Vec<&str> = hooks.iter().map(|h| h.path("/work")).collect();
    assert_eq!(
        paths,
        vec!["/work", "/s/one", "/s/b", "/s/d", "/work", "/s/l2", "/work"]
    );
    let installed: Vec<bool> = hooks.iter().map(|h| h.installed()).collect();
    assert_eq!(installed, vec![true, false, false, false, true, false, true]);
    assert_eq!(hooks[1].language_version(), "3.12");
    assert_eq!(hooks[0].stages(), Some(&vec![Stage::PreCommit]));
    assert!(!preparation.awaits(&Event::Local { path: Ok("/p".to_string()) }));
}

#[test]
fn another_order_prepares_the_same_hooks() {
    let project = two_remotes_and_locals();
    let (mut preparation, _) = project.hooks();
    preparation.step(stored(1, "/s/one", one()));
    preparation.step(stored(3, "/s/two", two()));
    preparation.step(Event::Environment { task: 0, path: Ok("/s/b".to_string()) });
    preparation.step(Event::Environment { task: 1, path: Ok("/s/d".to_string()) });
    let event = Event::Local { path: Ok("/s/l2".to_string()) };
    let hooks = finished(preparation.step(event));
    assert_eq!(ids(&hooks), vec!["a", "c", "b", "d", "l1", "l2", "l3"]);
}

#[test]
fn the_hooks_of_one_repo_stay_together_in_their_order() {
    let project = project(vec![
        remote(
            "https://h/one",
            vec![wanted("b", None), wanted("a", Some(vec!["dep"])), wanted("a", None)],
        ),
        remote("https://h/two", vec![wanted("d", None), wanted("c", None)]),
    ]);
    let (mut preparation, _) = project.hooks();
    preparation.step(stored(1, "/s/two", two()));
    preparation.step(stored(0, "/s/one", one()));
    let event = Event::Environment { task: 0, path: Ok("/s/a".to_string()) };
    let hooks = finished(preparation.step(event));
    assert_eq!(ids(&hooks), vec!["d", "c", "b", "a", "a"]);
    let paths: Vec<&str> = hooks.iter().map(|h| h.path("/work")).collect();
    assert_eq!(paths, vec!["/work", "/work", "/s/one", "/s/one", "/s/a"]);
}

#[test]
fn a_remote_hook_that_needs_no_environment_has_no_path() {
    let project = project(vec![remote("https://h/two", vec![wanted("c", None)])]);
    let (mut preparation, _) = project.hooks();
    let hooks = finished(preparation.step(stored(0, "/s/two", two())));
    assert!(hooks[0].installed());
    assert_eq!(hooks[0].path("/work"), "/work");
}

#[test]
fn local_hooks_that_need_nothing_are_ready_at_once() {
    let project = project(vec![local(vec![
        offered("l1", Language::System),
        offered("l2", Language::Script),
    ])]);
    let (_, action) = project.hooks();
    let hooks = finished(action);
    assert_eq!(ids(&hooks), vec!["l1", "l2"]);
    assert!(hooks[0].installed());
}

#[test]
fn a_hook_is_resolved_from_the_manifest() {
    let mut named = wanted("a", None);
    named.alias = Some("z".to_string());
    named.language_version = Some("3.8".to_string());
    let project = project(vec![remote("https://h/one", vec![named])]);
    let (mut preparation, _) = project.hooks();
    let hooks = finished(preparation.step(stored(0, "/s/one", one())));
    assert_eq!(hooks.len(), 1);
    assert_eq!(hooks[0].alias(), Some("z"));
    assert_eq!(hooks[0].language_version(), "3.8");
    assert_eq!(hooks[0].environment_dir(Platform::Unix, "/work"), "/s/one/py_env/3.8");
}

#[test]
fn a_hook_that_is_not_offered_is_an_error() {
    let project = project(vec![remote(
        "https://h/one",
        vec![wanted("a", None), wanted("x", None), wanted("y", None)],
    )]);
    let (mut preparation, _) = project.hooks();
    let action = preparation.step(stored(0, "/s/one", one()));
    assert_eq!(failed(action), "Hook not found: x in repo https://h/one@v1");
    assert!(!preparation.awaits(&stored(0, "/s/one", one())));
}

#[test]
fn a_missing_hook_fails_whatever_was_stored_before() {
    for first in [1, 3] {
        let project = two_remotes_and_locals();
        let (mut preparation, _) = project.hooks();
        if first == 1 {
            assert!(matches!(preparation.step(stored(1, "/s/one", one())), Action::Await));
        }
        let action = preparation.step(stored(3, "/s/two", vec![offered("c", Language::System)]));
        assert_eq!(failed(action), "Hook not found: d in repo https://h/two@v1");
        assert!(!preparation.awaits(&stored(1, "/s/one", one())));
    }
}

#[test]
fn a_repo_that_cannot_be_stored_is_an_error() {
    let project = two_remotes_and_locals();
    let (mut preparation, _) = project.hooks();
    let event = Event::Repo { repo: 3, stored: Err("no network".to_string()) };
    assert_eq!(failed(preparation.step(event)), "no network");
}

#[test]
fn a_manifest_that_cannot_be_read_is_an_error() {
    let project = two_remotes_and_locals();
    let (mut preparation, _) = project.hooks();
    let stored = Stored { path: "/s".to_string(), manifest: Err("no manifest".to_string()) };
    let event = Event::Repo { repo: 1, stored: Ok(stored) };
    assert_eq!(failed(preparation.step(event)), "no manifest");
}

#[test]
fn a_repo_without_a_url_is_an_error() {
    let project = project(vec![remote("one", vec![])]);
    let (mut preparation, _) = project.hooks();
    let action = preparation.step(stored(0, "/s", vec![]));
    assert_eq!(failed(action), "Failed to parse URL: relative URL without a base");
}

#[test]
fn an_environment_that_cannot_be_stored_is_an_error() {
    let project = project(vec![remote("https://h/one", vec![wanted("b", Some(vec!["dep"]))])]);
    let (mut preparation, _) = project.hooks();
    let action = preparation.step(stored(0, "/s", one()));
    assert!(matches!(action, Action::PrepareEnvironments(_)));
    let event = Event::Environment { task: 0, path: Err("no space".to_string()) };
    assert_eq!(failed(preparation.step(event)), "no space");
}

#[test]
fn a_local_hook_that_cannot_be_stored_is_an_error() {
    let project = project(vec![local(vec![offered("l", Language::Rust)])]);
    let (mut preparation, action) = project.hooks();
    assert!(matches!(action, Action::PrepareLocal(_)));
    let event = Event::Local { path: Err("no cargo".to_string()) };
    assert_eq!(failed(preparation.step(event)), "no cargo");
}

#[test]
fn a_loaded_repo_is_taken_as_it_is() {
    let project = project(vec![remote("https://h/one", vec![wanted("a", None)])]);
    let (mut preparation, _) = project.hooks();
    let repo = Repo::local(one());
    let hooks = finished(preparation.take_repo(0, "/s".to_string(), repo));
    assert_eq!(ids(&hooks), vec!["a"]);
}
