use std::path::Path;

use pre_commit::config::{
    ConfigRemoteHook, ConfigWire, Manifest, ManifestHook, CONFIG_FILE, MANIFEST_FILE,
};
use pre_commit::error::Error;
use pre_commit::hook::{Hook, Project, Repo};
use pre_commit::language::Language;
use pre_commit::paths::Platform;
use pre_commit::stage::Stage;

fn manifest_hook(id: &str, language: Language) -> ManifestHook {
    ManifestHook {
        id: id.to_string(),
        name: format!("the {}", id),
        language,
        alias: None,
        files: None,
        exclude: None,
        types: None,
        stages: None,
        language_version: None,
        additional_dependencies: None,
    }
}

fn wanted(id: &str) -> ConfigRemoteHook {
    ConfigRemoteHook {
        id: id.to_string(),
        name: None,
        language: None,
        alias: None,
        files: None,
        exclude: None,
        types: None,
        stages: None,
        language_version: None,
        additional_dependencies: None,
    }
}

fn no_defaults() -> ConfigWire {
    ConfigWire { repos: vec![], default_language_version: vec![], default_stages: None }
}

#[test]
fn a_hook_without_options_has_the_defaults() {
    let hook = Hook::new(manifest_hook("black", Language::Python), None);
    assert_eq!(hook.id(), "black");
    assert_eq!(hook.name(), "the black");
    assert_eq!(hook.alias(), None);
    assert_eq!(hook.files(), "");
    assert_eq!(hook.exclude(), "^$");
    assert_eq!(hook.types(), vec!["file"]);
    assert_eq!(hook.stages(), None);
    assert_eq!(hook.language_version(), "default");
    assert_eq!(hook.path("/work"), "/work");
    assert!(hook.installed());
}

#[test]
fn a_hook_shows_its_options() {
    let mut config = manifest_hook("black", Language::Python);
    config.alias = Some("b".to_string());
    config.files = Some("\\.py$".to_string());
    config.exclude = Some("^docs/".to_string());
    config.types = Some(vec!["python".to_string(), "text".to_string()]);
    config.stages = Some(vec![Stage::PrePush]);
    config.language_version = Some("3.12".to_string());
    let hook = Hook::new(config, Some("/store/black".to_string()));
    assert_eq!(hook.alias(), Some("b"));
    assert_eq!(hook.files(), "\\.py$");
    assert_eq!(hook.exclude(), "^docs/");
    assert_eq!(hook.types(), vec!["python", "text"]);
    assert_eq!(hook.stages(), Some(&vec![Stage::PrePush]));
    assert_eq!(hook.language_version(), "3.12");
    assert_eq!(hook.path("/work"), "/store/black");
    assert!(!hook.installed());
    assert_eq!(hook.environment_dir(Platform::Unix, "/work"), "/store/black/py_env/3.12");
}

#[test]
fn no_types_at_all_are_not_the_default_types() {
    let mut config = manifest_hook("black", Language::Python);
    config.types = Some(vec![]);
    assert!(Hook::new(config, None).types().is_empty());
}

#[test]
fn the_environment_of_a_hook_without_a_path_is_in_the_current_directory() {
    let hook = Hook::new(manifest_hook("black", Language::Node), None);
    assert_eq!(hook.environment_dir(Platform::Unix, "/work/"), "/work/node_env/default");
}

#[test]
fn an_absolute_version_is_the_environment() {
    let mut config = manifest_hook("black", Language::Python);
    config.language_version = Some("/opt/python".to_string());
    let hook = Hook::new(config, Some("/store".to_string()));
    let joined = Path::new("/store").join("py_env").join("/opt/python");
    assert_eq!(Path::new(&hook.environment_dir(Platform::Unix, "/work")), joined);
    assert_eq!(hook.environment_dir(Platform::Unix, "/work"), "/opt/python");
}

#[test]
fn an_environment_lies_in_the_working_directory_on_windows() {
    let mut config = manifest_hook("black", Language::Python);
    config.language_version = Some("3.12".to_string());
    let hook = Hook::new(config, Some("C:\\store".to_string()));
    let dir = hook.environment_dir(Platform::Windows, "C:\\work");
    assert_eq!(dir, "C:\\store\\py_env\\3.12");
    let mut config = manifest_hook("black", Language::Python);
    config.language_version = Some("..".to_string());
    let hook = Hook::new(config, Some("\\\\?\\C:\\store".to_string()));
    let dir = hook.environment_dir(Platform::Windows, "C:\\work");
    assert_eq!(dir, "\\\\?\\C:\\store");
    let hook = Hook::new(manifest_hook("black", Language::Node), None);
    let dir = hook.environment_dir(Platform::Windows, "C:\\work");
    assert_eq!(dir, "C:\\work\\node_env\\default");
}

#[test]
fn a_clone_of_a_hook_is_the_same_hook() {
    let mut config = manifest_hook("black", Language::Python);
    config.types = Some(vec!["python".to_string()]);
    let hook = Hook::new(config, Some("/store".to_string()));
    let copy = hook.clone();
    assert_eq!(copy.id(), hook.id());
    assert_eq!(copy.types(), hook.types());
    assert_eq!(copy.path("/work"), hook.path("/work"));
}

#[test]
fn a_clone_of_a_repo_is_the_same_repo() {
    let manifest = Manifest { hooks: vec![manifest_hook("black", Language::Python)] };
    let repo = Repo::remote("https://h/x", "v1", "/s", Ok(manifest)).unwrap().clone();
    assert_eq!(repo.to_string(), "https://h/x@v1");
    assert_eq!(repo.get_hook("black").unwrap().language, Language::Python);
    assert_eq!(Repo::Meta.clone().to_string(), "meta");
    let local = Repo::local(vec![manifest_hook("a", Language::System)]).unwrap().clone();
    assert!(local.get_hook("a").is_some());
}

#[test]
fn a_remote_repo_is_named_by_its_url_and_revision() {
    let manifest = Manifest { hooks: vec![manifest_hook("black", Language::Python)] };
    let repo = Repo::remote("HTTPS://Example.com/a/../b", "v1.0", "/store/x", Ok(manifest)).unwrap();
    assert_eq!(repo.to_string(), "https://example.com/b@v1.0");
    assert_eq!(repo.get_hook("black").unwrap().name, "the black");
    assert!(repo.get_hook("white").is_none());
}

#[test]
fn the_serialization_of_a_url_is_that_of_the_url_crate() {
    for text in ["https://github.com/psf/black", "git://host:9418/x", "file:///tmp/a b", "a:b"] {
        let repo = Repo::remote(text, "r", "/p", Ok(Manifest { hooks: vec![] })).unwrap();
        let url = url::Url::parse(text).unwrap();
        assert_eq!(repo.to_string(), format!("{}@r", url));
    }
}

#[test]
fn a_text_that_is_no_url_is_refused() {
    let repo = Repo::remote("black", "v1", "/store", Ok(Manifest { hooks: vec![] }));
    let error = repo.unwrap_err();
    assert!(matches!(&error, Error::InvalidUrl(d) if d == "relative URL without a base"));
    assert_eq!(error.message(), "Failed to parse URL: relative URL without a base");
}

#[test]
fn a_bad_url_comes_before_a_bad_manifest() {
    let repo = Repo::remote("http://", "v1", "/store", Err("no manifest".to_string()));
    assert_eq!(repo.unwrap_err().message(), "Failed to parse URL: empty host");
    let repo = Repo::remote("http://a", "v1", "/store", Err("no manifest".to_string()));
    let error = repo.unwrap_err();
    assert!(matches!(error, Error::ReadConfig(_)));
    assert_eq!(error.message(), "no manifest");
}

#[test]
fn a_url_is_normalized() {
    assert_eq!(Repo::url("HTTPS://Example.com/a/../b"), Ok("https://example.com/b".to_string()));
    assert_eq!(Repo::url("black"), Err("relative URL without a base".to_string()));
}

#[test]
fn a_parsed_url_is_taken_as_it_is() {
    let repo = Repo::remote_parsed(Ok("x".to_string()), "y", "/p", Ok(Manifest { hooks: vec![] }));
    assert_eq!(repo.unwrap().to_string(), "x@y");
    let repo = Repo::remote_parsed(Err("why".to_string()), "y", "/p", Err("not".to_string()));
    assert_eq!(repo.unwrap_err().message(), "Failed to parse URL: why");
}

#[test]
fn a_local_repo_offers_its_hooks() {
    let repo = Repo::local(vec![
        manifest_hook("a", Language::System),
        manifest_hook("b", Language::Script),
    ])
    .unwrap();
    assert_eq!(repo.to_string(), "local");
    assert_eq!(repo.get_hook("b").unwrap().language, Language::Script);
    assert!(repo.get_hook("c").is_none());
}

#[test]
fn the_meta_repo_offers_nothing() {
    assert_eq!(Repo::Meta.to_string(), "meta");
    assert!(Repo::Meta.get_hook("a").is_none());
}

#[test]
fn the_first_of_two_hooks_with_one_id_is_found() {
    let repo = Repo::local(vec![
        manifest_hook("a", Language::System),
        manifest_hook("a", Language::Python),
    ])
    .unwrap();
    assert_eq!(repo.get_hook("a").unwrap().language, Language::System);
}

#[test]
fn the_manifest_lies_in_the_stored_repo() {
    assert_eq!(MANIFEST_FILE, ".pre-commit-hooks.yaml");
    let unix = Repo::manifest_path(Platform::Unix, "/store/x");
    assert_eq!(unix, "/store/x/.pre-commit-hooks.yaml");
    let windows = Repo::manifest_path(Platform::Windows, "C:\\x");
    assert_eq!(windows, "C:\\x\\.pre-commit-hooks.yaml");
}

#[test]
fn the_configuration_is_where_it_is_said_to_be() {
    assert_eq!(CONFIG_FILE, ".pre-commit-config.yaml");
    let unix = Project::config_path(Platform::Unix, "/work", None);
    assert_eq!(unix, "/work/.pre-commit-config.yaml");
    let windows = Project::config_path(Platform::Windows, "D:", None);
    assert_eq!(windows, "D:.pre-commit-config.yaml");
    let given = Project::config_path(Platform::Unix, "/work", Some("c.yaml".to_string()));
    assert_eq!(given, "c.yaml");
}

#[test]
fn a_project_needs_its_configuration() {
    assert!(Project::from_directory("/work".to_string(), Ok(no_defaults())).is_ok());
    let project = Project::current("/work", Err("no such file".to_string()));
    match project {
        Err(error) => assert_eq!(error.message(), "no such file"),
        Ok(_) => panic!("there is no configuration"),
    }
}

#[test]
fn the_message_of_a_missing_hook_names_the_repo() {
    let error = Error::HookNotFound { hook: "a".to_string(), repo: "b@c".to_string() };
    assert_eq!(error.message(), "Hook not found: a in repo b@c");
    assert_eq!(Error::Store("full".to_string()).message(), "full");
}

#[test]
fn the_project_says_otherwise_of_a_hook() {
    let mut hook = manifest_hook("a", Language::Python);
    hook.files = Some("x".to_string());
    hook.exclude = Some("y".to_string());
    let mut config = wanted("a");
    config.name = Some("another".to_string());
    config.language = Some(Language::Node);
    config.alias = Some("z".to_string());
    config.files = Some("w".to_string());
    config.types = Some(vec!["t".to_string()]);
    config.stages = Some(vec![Stage::Manual]);
    config.language_version = Some("20".to_string());
    config.additional_dependencies = Some(vec![]);
    hook.update(&config);
    assert_eq!(hook.id, "a");
    assert_eq!(hook.name, "another");
    assert_eq!(hook.language, Language::Node);
    assert_eq!(hook.alias, Some("z".to_string()));
    assert_eq!(hook.files, Some("w".to_string()));
    assert_eq!(hook.exclude, Some("y".to_string()));
    assert_eq!(hook.types, Some(vec!["t".to_string()]));
    assert_eq!(hook.stages, Some(vec![Stage::Manual]));
    assert_eq!(hook.language_version, Some("20".to_string()));
    assert_eq!(hook.additional_dependencies, Some(vec![]));
}

#[test]
fn defaults_fill_only_what_is_open() {
    let config = ConfigWire {
        repos: vec![],
        default_language_version: vec![
            (Language::Node, "20".to_string()),
            (Language::Python, "3.12".to_string()),
        ],
        default_stages: Some(vec![Stage::PreCommit]),
    };
    let mut open = manifest_hook("a", Language::Python);
    open.fill(&config);
    assert_eq!(open.language_version, Some("3.12".to_string()));
    assert_eq!(open.stages, Some(vec![Stage::PreCommit]));
    open.fill(&config);
    assert_eq!(open.language_version, Some("3.12".to_string()));
    let mut set = manifest_hook("a", Language::Python);
    set.language_version = Some("3.8".to_string());
    set.stages = Some(vec![]);
    set.fill(&config);
    assert_eq!(set.language_version, Some("3.8".to_string()));
    assert_eq!(set.stages, Some(vec![]));
    let mut other = manifest_hook("a", Language::Ruby);
    other.fill(&config);
    assert_eq!(other.language_version, None);
}

#[test]
fn languages_without_a_directory_need_no_environment() {
    for language in [
        Language::DockerImage,
        Language::Fail,
        Language::Pygrep,
        Language::Script,
        Language::System,
    ] {
        assert_eq!(language.environment_dir(), None);
        assert!(!language.need_environment());
    }
    assert_eq!(Language::Rust.environment_dir(), Some("rustenv"));
    assert!(Language::Rust.need_environment());
}
