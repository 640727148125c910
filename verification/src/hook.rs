//! Repositories, projects and hooks.

use vstd::prelude::*;

use crate::config;
use crate::config::{
    ConfigLocalHook, ConfigWire, ConfigWireView, Manifest, ManifestHook, ManifestHookView,
    CONFIG_FILE, MANIFEST_FILE,
};
use crate::error::{Error, ErrorView};
use crate::language;
use crate::language::Language;
use crate::paths;
use crate::paths::Platform;
use crate::prepare;
use crate::prepare::{Action, Preparation};
use crate::stage::Stage;
use crate::urls;

verus! {

/// A result, with both sides taken by their views.
pub open spec fn outcome<T: View, E: View>(result: Result<T, E>) -> Result<T::V, E::V> {
    match result {
        Ok(value) => Ok(value@),
        Err(error) => Err(error@),
    }
}

/// A repository that was cloned, and the hooks that its manifest offers.
#[derive(Debug)]
pub struct RemoteRepo {
    /// Path to the stored repo.
    path: String,
    url: String,
    rev: String,
    hooks: Vec<ManifestHook>,
}

/// The hooks that a project describes by itself.
#[derive(Debug)]
pub struct LocalRepo {
    hooks: Vec<ManifestHook>,
}

/// A repository with its hooks.
#[derive(Debug)]
pub enum Repo {
    Remote(RemoteRepo),
    Local(LocalRepo),
    Meta,
}

/// What a [`Repo`] holds.
pub enum RepoView {
    Remote { path: Seq<char>, url: Seq<char>, rev: Seq<char>, hooks: Seq<ManifestHookView> },
    Local { hooks: Seq<ManifestHookView> },
    Meta,
}

impl View for RemoteRepo {
    type V = RepoView;

    closed spec fn view(&self) -> RepoView {
        RepoView::Remote {
            path: self.path@,
            url: self.url@,
            rev: self.rev@,
            hooks: self.hooks.deep_view(),
        }
    }
}

impl View for LocalRepo {
    type V = RepoView;

    closed spec fn view(&self) -> RepoView {
        RepoView::Local { hooks: self.hooks.deep_view() }
    }
}

impl View for Repo {
    type V = RepoView;

    open spec fn view(&self) -> RepoView {
        match self {
            Repo::Remote(repo) => repo@,
            Repo::Local(repo) => repo@,
            Repo::Meta => RepoView::Meta,
        }
    }
}

impl Clone for RemoteRepo {
    fn clone(&self) -> (copy: Self)
        ensures
            copy@ == self@,
    {
        RemoteRepo {
            path: self.path.clone(),
            url: self.url.clone(),
            rev: self.rev.clone(),
            hooks: config::clone_hooks(&self.hooks),
        }
    }
}

impl Clone for LocalRepo {
    fn clone(&self) -> (copy: Self)
        ensures
            copy@ == self@,
    {
        LocalRepo { hooks: config::clone_hooks(&self.hooks) }
    }
}

impl Clone for Repo {
    fn clone(&self) -> (copy: Self)
        ensures
            copy@ == self@,
    {
        match self {
            Repo::Remote(repo) => Repo::Remote(repo.clone()),
            Repo::Local(repo) => Repo::Local(repo.clone()),
            Repo::Meta => Repo::Meta,
        }
    }
}

/// The hooks that a repository offers.
pub open spec fn offered(repo: RepoView) -> Seq<ManifestHookView> {
    match repo {
        RepoView::Remote { hooks, .. } => hooks,
        RepoView::Local { hooks } => hooks,
        RepoView::Meta => Seq::empty(),
    }
}

/// How messages name a repository.
pub open spec fn repo_label(repo: RepoView) -> Seq<char> {
    match repo {
        RepoView::Remote { url, rev, .. } => url + "@"@ + rev,
        RepoView::Local { .. } => "local"@,
        RepoView::Meta => "meta"@,
    }
}

/// The first of `hooks` that has the id `id`.
pub open spec fn first_with_id(hooks: Seq<ManifestHookView>, id: Seq<char>) -> Option<
    ManifestHookView,
>
    decreases hooks.len(),
{
    if hooks.len() == 0 {
        None
    } else if hooks[0].id == id {
        Some(hooks[0])
    } else {
        first_with_id(hooks.drop_first(), id)
    }
}

/// The URL in a text, or the description of why there is none.
pub open spec fn parsed_url(input: Seq<char>) -> Result<Seq<char>, Seq<char>> {
    match urls::url_parse(input) {
        Ok(url) => Ok(url),
        Err(error) => Err(urls::parse_error_text(error)),
    }
}

/// The repository that was stored at `path`, or why it cannot be used: a text that is no URL
/// comes before a manifest that cannot be read.
pub open spec fn loaded_repo(
    url: Result<Seq<char>, Seq<char>>,
    rev: Seq<char>,
    path: Seq<char>,
    manifest: Result<Seq<ManifestHookView>, Seq<char>>,
) -> Result<RepoView, ErrorView> {
    match (url, manifest) {
        (Err(description), _) => Err(ErrorView::InvalidUrl(description)),
        (Ok(_), Err(description)) => Err(ErrorView::ReadConfig(description)),
        (Ok(url), Ok(hooks)) => Ok(RepoView::Remote { path, url, rev, hooks }),
    }
}

/// What was read of a manifest.
pub open spec fn manifest_hooks(manifest: Result<Manifest, String>) -> Result<
    Seq<ManifestHookView>,
    Seq<char>,
> {
    match manifest {
        Ok(manifest) => Ok(manifest.hooks.deep_view()),
        Err(description) => Err(description@),
    }
}

/// Where the manifest of the repository stored at `path` is.
pub open spec fn manifest_at(platform: Platform, path: Seq<char>) -> Seq<char> {
    paths::joined_path(platform, path, MANIFEST_FILE@)
}

/// Where the configuration of the project at `root` is: at the path `config` where it is given.
pub open spec fn config_at(
    platform: Platform,
    root: Seq<char>,
    config: Option<Seq<char>>,
) -> Seq<char> {
    match config {
        Some(config) => config,
        None => paths::joined_path(platform, root, CONFIG_FILE@),
    }
}

impl Repo {
    /// Where the manifest of the repository stored at `path` is.
    pub fn manifest_path(platform: Platform, path: &str) -> (manifest: String)
        ensures
            manifest@ == manifest_at(platform, path@),
    {
        paths::join_path(platform, path, MANIFEST_FILE)
    }

    /// The URL in a text, or the description of why there is none.
    pub fn url(input: &str) -> (url: Result<String, String>)
        ensures
            outcome(url) == parsed_url(input@),
    {
        match urls::parse_url(input) {
            Ok(url) => Ok(url),
            Err(error) => Err(urls::describe_parse_error(&error)),
        }
    }

    /// The remote repository `url` at `rev`, stored at `path`, with the manifest that was
    /// read there.
    pub fn remote(
        url: &str,
        rev: &str,
        path: &str,
        manifest: Result<Manifest, String>,
    ) -> (repo: Result<Self, Error>)
        ensures
            outcome(repo) == loaded_repo(parsed_url(url@), rev@, path@, manifest_hooks(manifest)),
    {
        Self::remote_parsed(Self::url(url), rev, path, manifest)
    }

    /// The remote repository with the URL `url`, or the description of why it has none.
    pub fn remote_parsed(
        url: Result<String, String>,
        rev: &str,
        path: &str,
        manifest: Result<Manifest, String>,
    ) -> (repo: Result<Self, Error>)
        ensures
            outcome(repo) == loaded_repo(outcome(url), rev@, path@, manifest_hooks(manifest)),
    {
        let url = match url {
            Ok(url) => url,
            Err(description) => return Err(Error::InvalidUrl(description)),
        };
        let manifest = match manifest {
            Ok(manifest) => manifest,
            Err(description) => return Err(Error::ReadConfig(description)),
        };
        Ok(
            Repo::Remote(
                RemoteRepo {
                    path: path.to_owned(),
                    url,
                    rev: rev.to_owned(),
                    hooks: manifest.hooks,
                },
            ),
        )
    }

    /// Construct a local repo from a list of hooks.
    pub fn local(hooks: Vec<ConfigLocalHook>) -> (repo: Result<Self, Error>)
        ensures
            outcome(repo) == Ok::<RepoView, ErrorView>(
                RepoView::Local { hooks: hooks.deep_view() },
            ),
    {
        Ok(Repo::Local(LocalRepo { hooks }))
    }

    /// Get a hook by id.
    pub fn get_hook(&self, id: &str) -> (hook: Option<&ManifestHook>)
        ensures
            hook.deep_view() == first_with_id(offered(self@), id@),
    {
        let hooks = match self {
            Repo::Remote(repo) => &repo.hooks,
            Repo::Local(repo) => &repo.hooks,
            Repo::Meta => return None,
        };
        let wanted = id.to_owned();
        let ghost all = hooks.deep_view();
        assert(all.skip(0) =~= all);
        for i in 0..hooks.len()
            invariant
                all == hooks.deep_view(),
                all == offered(self@),
                wanted@ == id@,
                first_with_id(all, id@) == first_with_id(all.skip(i as int), id@),
        {
            assert(all.skip(i as int).drop_first() =~= all.skip(i + 1));
            if hooks[i].id == wanted {
                return Some(&hooks[i]);
            }
        }
        None
    }

    /// How messages name the repository.
    pub fn to_string(&self) -> (label: String)
        ensures
            label@ == repo_label(self@),
    {
        match self {
            Repo::Remote(repo) => {
                let mut label = repo.url.clone();
                label.append("@");
                label.append(repo.rev.as_str());
                label
            },
            Repo::Local(_) => "local".to_owned(),
            Repo::Meta => "meta".to_owned(),
        }
    }
}

/// The project that a directory holds.
pub struct Project {
    root: String,
    config: ConfigWire,
}

/// What a [`Project`] holds.
pub struct ProjectView {
    pub root: Seq<char>,
    pub config: ConfigWireView,
}

impl View for Project {
    type V = ProjectView;

    closed spec fn view(&self) -> ProjectView {
        ProjectView { root: self.root@, config: self.config@ }
    }
}

/// The project at `root` with the configuration that was read for it, or the error that
/// reading gave.
pub open spec fn loaded_project(
    root: Seq<char>,
    config: Result<ConfigWire, String>,
) -> Result<ProjectView, ErrorView> {
    match config {
        Ok(config) => Ok(ProjectView { root, config: config@ }),
        Err(description) => Err(ErrorView::ReadConfig(description@)),
    }
}

impl Project {
    /// Where the configuration of the project at `root` is: at the path `config` where it is
    /// given, else in the file `CONFIG_FILE` of the directory.
    pub fn config_path(platform: Platform, root: &str, config: Option<String>) -> (path: String)
        ensures
            path@ == config_at(platform, root@, config.deep_view()),
    {
        match config {
            Some(config) => config,
            None => paths::join_path(platform, root, CONFIG_FILE),
        }
    }

    /// Load a project configuration from a directory: `config` is what was read at its
    /// configuration path.
    pub fn from_directory(root: String, config: Result<ConfigWire, String>) -> (project: Result<
        Self,
        Error,
    >)
        ensures
            outcome(project) == loaded_project(root@, config),
    {
        match config {
            Ok(config) => Ok(Project { root, config }),
            Err(description) => Err(Error::ReadConfig(description)),
        }
    }

    /// Load project configuration from the current directory `cwd`.
    pub fn current(cwd: &str, config: Result<ConfigWire, String>) -> (project: Result<Self, Error>)
        ensures
            outcome(project) == loaded_project(cwd@, config),
    {
        Self::from_directory(cwd.to_owned(), config)
    }

    /// Load and prepare hooks for the project: the beginning of the preparation, and what is
    /// to be done first.
    pub fn hooks(&self) -> (begun: (Preparation<'_>, Action))
        ensures
            begun.0.wf(),
            (begun.0@, begun.1@) == prepare::started(self@.config),
    {
        Preparation::start(&self.config)
    }
}

/// A hook that is ready to be installed and run.
#[derive(Debug)]
pub struct Hook {
    config: ManifestHook,
    path: Option<String>,
}

/// What a [`Hook`] holds.
pub struct HookView {
    pub config: ManifestHookView,
    pub path: Option<Seq<char>>,
}

impl View for Hook {
    type V = HookView;

    closed spec fn view(&self) -> HookView {
        HookView { config: self.config@, path: self.path.deep_view() }
    }
}

impl DeepView for Hook {
    type V = HookView;

    open spec fn deep_view(&self) -> HookView {
        self@
    }
}

impl Clone for Hook {
    fn clone(&self) -> (copy: Self)
        ensures
            copy@ == self@,
    {
        Hook { config: self.config.clone(), path: config::clone_text(&self.path) }
    }
}

/// `text` where it is given, else `default`.
pub open spec fn text_or(text: Option<Seq<char>>, default: Seq<char>) -> Seq<char> {
    match text {
        Some(text) => text,
        None => default,
    }
}

/// The directory that a hook works in, if `cwd` is the current one.
pub open spec fn working_directory(hook: HookView, cwd: Seq<char>) -> Seq<char> {
    text_or(hook.path, cwd)
}

/// The version of its language that a hook uses.
pub open spec fn used_version(hook: ManifestHookView) -> Seq<char> {
    text_or(hook.language_version, "default"@)
}

/// The directory that a hook of a language with environments is installed to: in its working
/// directory that of the language, and in this that of the version.
pub open spec fn environment_path(
    platform: Platform,
    hook: HookView,
    cwd: Seq<char>,
) -> Seq<char> {
    paths::joined_path(
        platform,
        paths::joined_path(
            platform,
            working_directory(hook, cwd),
            language::environment_name(hook.config.language).unwrap(),
        ),
        used_version(hook.config),
    )
}

/// The pattern of the files that a hook runs on.
pub open spec fn files_pattern(hook: ManifestHookView) -> Seq<char> {
    text_or(hook.files, ""@)
}

/// The pattern of the files that a hook leaves out.
pub open spec fn exclude_pattern(hook: ManifestHookView) -> Seq<char> {
    text_or(hook.exclude, "^$"@)
}

/// Whether a hook is installed: it is if there is nowhere to install it to.
pub open spec fn is_installed(hook: HookView) -> bool {
    hook.path is None
}

/// The kinds of files that a hook runs on.
pub open spec fn file_types(hook: ManifestHookView) -> Seq<Seq<char>> {
    match hook.types {
        Some(types) => types,
        None => seq!["file"@],
    }
}

impl Hook {
    /// Create a new hook with a configuration and an optional path.
    /// The path is `None` if the hook doesn't need an environment, unless it comes from a
    /// remote repository and has additional dependencies: then the path is that of the
    /// separate repository that was stored for it.
    pub fn new(config: ManifestHook, path: Option<String>) -> (hook: Self)
        ensures
            hook@ == (HookView { config: config@, path: path.deep_view() }),
    {
        Hook { config, path }
    }

    /// Get the working directory for the hook: its path, or the current directory `cwd` if
    /// it has none.
    pub fn path<'a>(&'a self, cwd: &'a str) -> (path: &'a str)
        ensures
            path@ == working_directory(self@, cwd@),
    {
        match &self.path {
            Some(path) => path.as_str(),
            None => cwd,
        }
    }

    /// The language of the hook.
    pub fn language(&self) -> (language: Language)
        ensures
            language == self@.config.language,
    {
        self.config.language
    }

    /// The version of its language that the hook uses.
    pub fn language_version(&self) -> (version: &str)
        ensures
            version@ == used_version(self@.config),
    {
        match &self.config.language_version {
            Some(version) => version.as_str(),
            None => "default",
        }
    }

    /// The id of the hook.
    pub fn id(&self) -> (id: &str)
        ensures
            id@ == self@.config.id,
    {
        self.config.id.as_str()
    }

    /// The name of the hook.
    pub fn name(&self) -> (name: &str)
        ensures
            name@ == self@.config.name,
    {
        self.config.name.as_str()
    }

    /// The other id of the hook, if it has one.
    pub fn alias(&self) -> (alias: Option<&str>)
        ensures
            alias.deep_view() == self@.config.alias,
    {
        match &self.config.alias {
            Some(alias) => Some(alias.as_str()),
            None => None,
        }
    }

    /// The pattern of the files that the hook runs on: by default one that matches all.
    pub fn files(&self) -> (pattern: &str)
        ensures
            pattern@ == files_pattern(self@.config),
    {
        match &self.config.files {
            Some(files) => files.as_str(),
            None => "",
        }
    }

    /// The pattern of the files that the hook leaves out: by default one that matches none.
    pub fn exclude(&self) -> (pattern: &str)
        ensures
            pattern@ == exclude_pattern(self@.config),
    {
        match &self.config.exclude {
            Some(exclude) => exclude.as_str(),
            None => "^$",
        }
    }

    /// The kinds of files that the hook runs on: by default all regular files.
    pub fn types(&self) -> (types: Vec<&str>)
        ensures
            types.deep_view() == file_types(self@.config),
    {
        let mut types: Vec<&str> = Vec::new();
        match &self.config.types {
            Some(list) => {
                for i in 0..list.len()
                    invariant
                        types.len() == i,
                        forall|k: int| 0 <= k < i ==> (#[trigger] types@[k])@ == list@[k]@,
                {
                    types.push(list[i].as_str());
                }
                assert(types.deep_view() =~= list.deep_view());
            },
            None => {
                types.push("file");
                assert(types.deep_view() =~= seq!["file"@]);
            },
        }
        types
    }

    /// The stages that the hook runs at, if it names any.
    pub fn stages(&self) -> (stages: Option<&Vec<Stage>>)
        ensures
            stages.deep_view() == self@.config.stages,
    {
        self.config.stages.as_ref()
    }

    /// Get the environment directory that the hook will be installed to.
    pub fn environment_dir(&self, platform: Platform, cwd: &str) -> (dir: String)
        requires
            language::needs_environment(self@.config.language),
        ensures
            dir@ == environment_path(platform, self@, cwd@),
    {
        let name = self.config.language.environment_dir().unwrap();
        let base = paths::join_path(platform, self.path(cwd), name);
        paths::join_path(platform, base.as_str(), self.language_version())
    }

    /// Check if the hook is installed.
    pub fn installed(&self) -> (installed: bool)
        ensures
            installed == is_installed(self@),
    {
        self.path.is_none()
    }
}

/// A hook is found exactly if one has the id, and then it is the first that has it.
pub proof fn the_first_hook_of_an_id_is_found(hooks: Seq<ManifestHookView>, id: Seq<char>)
    ensures
        match first_with_id(hooks, id) {
            Some(hook) => exists|i: int|
                0 <= i < hooks.len() && #[trigger] hooks[i] == hook && hook.id == id && forall|
                    j: int,
                |
                    0 <= j < i ==> (#[trigger] hooks[j]).id != id,
            None => forall|i: int| 0 <= i < hooks.len() ==> (#[trigger] hooks[i]).id != id,
        },
    decreases hooks.len(),
{
    if hooks.len() > 0 && hooks[0].id != id {
        let rest = hooks.drop_first();
        the_first_hook_of_an_id_is_found(rest, id);
        match first_with_id(rest, id) {
            Some(hook) => {
                let i = choose|i: int|
                    0 <= i < rest.len() && #[trigger] rest[i] == hook && hook.id == id && forall|
                        j: int,
                    |
                        0 <= j < i ==> (#[trigger] rest[j]).id != id;
                assert(hooks[i + 1] == hook);
                assert forall|j: int| 0 <= j < i + 1 implies (#[trigger] hooks[j]).id != id by {
                    if j > 0 {
                        assert(rest[j - 1] == hooks[j]);
                    }
                }
            },
            None => {
                assert forall|i: int| 0 <= i < hooks.len() implies (#[trigger] hooks[i]).id
                    != id by {
                    if i > 0 {
                        assert(rest[i - 1] == hooks[i]);
                    }
                }
            },
        }
    } else if hooks.len() > 0 {
        assert(hooks[0].id == id);
    }
}

/// The directory that a hook is installed to lies in its working directory, unless its
/// language version is a path that is not relative. Of verbatim working directories nothing
/// is said, as their names may not stay as they are written.
pub proof fn an_environment_lies_in_the_working_directory(
    platform: Platform,
    hook: HookView,
    cwd: Seq<char>,
)
    requires
        language::needs_environment(hook.config.language),
        !paths::is_verbatim(platform, working_directory(hook, cwd)),
        paths::is_relative(platform, used_version(hook.config)),
    ensures
        working_directory(hook, cwd).is_prefix_of(environment_path(platform, hook, cwd)),
{
    reveal_strlit("conda");
    reveal_strlit("coursier");
    reveal_strlit("dartenv");
    reveal_strlit("docker");
    reveal_strlit("dotnetenv");
    reveal_strlit("golangenv");
    reveal_strlit("hs_env");
    reveal_strlit("juliaenv");
    reveal_strlit("lua_env");
    reveal_strlit("node_env");
    reveal_strlit("perl_env");
    reveal_strlit("py_env");
    reveal_strlit("renv");
    reveal_strlit("rbenv");
    reveal_strlit("rustenv");
    reveal_strlit("swift_env");
    let base = working_directory(hook, cwd);
    let name = language::environment_name(hook.config.language).unwrap();
    assert(paths::is_relative(platform, name));
    let dir = paths::joined_path(platform, base, name);
    paths::a_relative_path_lies_below_the_base(platform, base, name);
    let version = used_version(hook.config);
    let path = environment_path(platform, hook, cwd);
    assert(base =~= dir.take(base.len() as int));
    if paths::is_verbatim(platform, dir) {
        paths::a_verbatim_prefix_stays(dir, version);
        let prefix = dir.take(paths::prefix_len(platform, dir));
        assert(base.len() < 4) by {
            if base.len() >= 4 {
                assert(paths::is_verbatim(platform, base));
            }
        }
        assert(prefix =~= path.take(prefix.len() as int));
    } else {
        paths::a_relative_path_lies_below_the_base(platform, dir, version);
        assert(dir =~= path.take(dir.len() as int));
    }
    assert(base =~= path.take(base.len() as int));
}

/// The environment of a hook is named by its language and, in that, by the version that the
/// hook names, or `default` where it names none. It lies where the hook is stored, or in the
/// current directory where it is not. A version that is a path of its own is the environment.
pub proof fn an_environment_is_named_by_language_and_version(hook: HookView, cwd: Seq<char>)
    requires
        language::needs_environment(hook.config.language),
    ensures
        ({
            let base = match hook.path {
                Some(path) => path,
                None => cwd,
            };
            let version = match hook.config.language_version {
                Some(version) => version,
                None => "default"@,
            };
            let name = language::environment_name(hook.config.language)->0;
            let unix = environment_path(Platform::Unix, hook, cwd);
            let windows = environment_path(Platform::Windows, hook, cwd);
            let is_path = version.len() > 0 && paths::is_slash(version[0])
                || paths::begins_with_drive(version);
            let is_drive = base.len() == 2 && paths::begins_with_drive(base);
            &&& version.len() > 0 && version[0] == '/' ==> unix == version
            &&& !(version.len() > 0 && version[0] == '/') ==> unix == base + (if base.len() == 0
                || base.last() == '/' {
                Seq::empty()
            } else {
                seq!['/']
            }) + name + seq!['/'] + version
            &&& paths::prefix_len(Platform::Windows, version) > 0 ==> windows == version
            &&& !is_path && !paths::is_verbatim(Platform::Windows, base) && base != seq![
                '\\',
                '\\',
                '?',
            ] ==> windows == base + (if base.len() == 0 || paths::is_slash(base.last())
                || is_drive {
                Seq::empty()
            } else {
                seq!['\\']
            }) + name + seq!['\\'] + version
            &&& windows == paths::joined_path(
                Platform::Windows,
                paths::joined_path(Platform::Windows, base, name),
                version,
            )
        }),
{
    let base = match hook.path {
        Some(path) => path,
        None => cwd,
    };
    let version = match hook.config.language_version {
        Some(version) => version,
        None => "default"@,
    };
    let name = language::environment_name(hook.config.language)->0;
    language::lemma_environment_name(hook.config.language);
    let last = name[name.len() - 1];
    let first = name[0];
    assert(last != '/' && last != '\\' && first != '/' && first != '\\' && first != '?');
    let unix_dir = paths::joined_path(Platform::Unix, base, name);
    paths::a_slash_joins_on_unix(base, name);
    paths::a_slash_joins_on_unix(unix_dir, version);
    assert(unix_dir.len() > 0 && unix_dir.last() == last);
    let unix = environment_path(Platform::Unix, hook, cwd);
    if !(version.len() > 0 && version[0] == '/') {
        assert(unix =~= base + (if base.len() == 0 || base.last() == '/' {
            Seq::empty()
        } else {
            seq!['/']
        }) + name + seq!['/'] + version);
    }
    let is_path = version.len() > 0 && paths::is_slash(version[0]) || paths::begins_with_drive(
        version,
    );
    if !is_path && !paths::is_verbatim(Platform::Windows, base) && base != seq!['\\', '\\', '?'] {
        let dir = paths::joined_path(Platform::Windows, base, name);
        paths::a_backslash_joins_on_windows(base, name);
        if paths::is_verbatim(Platform::Windows, dir) {
            if base.len() >= 4 {
                assert(dir[0] == base[0] && dir[1] == base[1] && dir[2] == base[2] && dir[3]
                    == base[3]);
            } else if base.len() == 3 {
                assert(dir[0] == base[0] && dir[1] == base[1] && dir[2] == base[2]);
                assert(base =~= seq!['\\', '\\', '?']);
            } else if base.len() == 2 {
                assert(dir[0] == base[0] && dir[1] == base[1]);
                assert(dir[2] == first);
            } else if base.len() == 1 {
                assert(dir[0] == base[0] && dir[1] == first);
            } else {
                assert(dir[0] == first);
            }
        }
        assert(dir.last() == last);
        paths::a_backslash_joins_on_windows(dir, version);
        let windows = environment_path(Platform::Windows, hook, cwd);
        assert(windows =~= base + (if base.len() == 0 || paths::is_slash(base.last()) || (
        base.len() == 2 && paths::begins_with_drive(base)) {
            Seq::empty()
        } else {
            seq!['\\']
        }) + name + seq!['\\'] + version);
    }
}

/// What a hook leaves open is by default: the version `default`, the files of all names, none
/// excluded, of the kind `file`, and the current directory to work in. What it names stays.
pub proof fn a_hook_has_what_it_names_or_the_default(hook: HookView, cwd: Seq<char>)
    ensures
        hook.path matches Some(path) ==> working_directory(hook, cwd) == path,
        hook.path is None ==> working_directory(hook, cwd) == cwd,
        hook.config.language_version matches Some(version) ==> used_version(hook.config)
            == version,
        hook.config.language_version is None ==> used_version(hook.config) == "default"@,
        hook.config.types matches Some(types) ==> file_types(hook.config) == types,
        hook.config.types is None ==> file_types(hook.config) == seq!["file"@],
        hook.config.files matches Some(files) ==> files_pattern(hook.config) == files,
        hook.config.files is None ==> files_pattern(hook.config) == ""@,
        hook.config.exclude matches Some(exclude) ==> exclude_pattern(hook.config) == exclude,
        hook.config.exclude is None ==> exclude_pattern(hook.config) == "^$"@,
        is_installed(hook) <==> hook.path is None,
{
}

/// A repository is named by its URL and its revision, and the other two by what they are; the
/// meta repository offers nothing, and each of the others the hooks that it holds.
pub proof fn a_repository_is_named_by_url_and_revision(
    path: Seq<char>,
    url: Seq<char>,
    rev: Seq<char>,
    hooks: Seq<ManifestHookView>,
)
    ensures
        repo_label(RepoView::Remote { path, url, rev, hooks }) == url + seq!['@'] + rev,
        repo_label(RepoView::Local { hooks }) == "local"@,
        repo_label(RepoView::Meta) == "meta"@,
        offered(RepoView::Remote { path, url, rev, hooks }) == hooks,
        offered(RepoView::Local { hooks }) == hooks,
        offered(RepoView::Meta) == Seq::<ManifestHookView>::empty(),
{
    reveal_strlit("@");
    assert("@"@ =~= seq!['@']);
}

/// A repository is loaded exactly if it has a URL and its manifest was read. Else the error is
/// that of the URL, if it has none, whatever became of the manifest, and that of the manifest
/// otherwise.
pub proof fn a_repository_loads_if_url_and_manifest_do(
    url: Seq<char>,
    rev: Seq<char>,
    path: Seq<char>,
    manifest: Result<Manifest, String>,
)
    ensures
        ({
            let loaded = loaded_repo(parsed_url(url), rev, path, manifest_hooks(manifest));
            match urls::url_parse(url) {
                Err(error) => loaded == Err::<RepoView, ErrorView>(
                    ErrorView::InvalidUrl(urls::parse_error_text(error)),
                ),
                Ok(parsed) => match manifest {
                    Err(description) => loaded == Err::<RepoView, ErrorView>(
                        ErrorView::ReadConfig(description@),
                    ),
                    Ok(manifest) => loaded matches Ok(RepoView::Remote {
                        path: at,
                        url: named,
                        rev: revision,
                        hooks,
                    }) && at == path && named == parsed && revision == rev && hooks.len()
                        == manifest.hooks.len() && forall|i: int|
                        0 <= i < hooks.len() ==> #[trigger] hooks[i] == manifest.hooks[i]@,
                },
            }
        }),
{
}

/// A project is loaded exactly if its configuration was read, and has that configuration.
pub proof fn a_project_loads_if_its_configuration_does(
    root: Seq<char>,
    config: Result<ConfigWire, String>,
)
    ensures
        match config {
            Ok(config) => loaded_project(root, Ok(config)) matches Ok(project) && project.root
                == root && project.config == config@,
            Err(description) => loaded_project(root, Err(description)) == Err::<
                ProjectView,
                ErrorView,
            >(ErrorView::ReadConfig(description@)),
        },
{
}

/// A given configuration is read where it is said to be, and else, as a manifest is, in the
/// file of its name in the directory.
pub proof fn a_file_is_read_where_it_is_said_to_be(
    platform: Platform,
    directory: Seq<char>,
    given: Seq<char>,
)
    ensures
        config_at(platform, directory, Some(given)) == given,
        directory.len() > 0 && directory.last() != '/' ==> {
            &&& config_at(Platform::Unix, directory, None) == directory + seq!['/']
                + ".pre-commit-config.yaml"@
            &&& manifest_at(Platform::Unix, directory) == directory + seq!['/']
                + ".pre-commit-hooks.yaml"@
        },
        directory.len() > 0 && directory.last() == '/' ==> {
            &&& config_at(Platform::Unix, directory, None) == directory
                + ".pre-commit-config.yaml"@
            &&& manifest_at(Platform::Unix, directory) == directory + ".pre-commit-hooks.yaml"@
        },
        !paths::is_verbatim(Platform::Windows, directory) && directory.len() > 2
            && !paths::is_slash(directory.last()) ==> {
            &&& config_at(Platform::Windows, directory, None) == directory + seq!['\\']
                + ".pre-commit-config.yaml"@
            &&& manifest_at(Platform::Windows, directory) == directory + seq!['\\']
                + ".pre-commit-hooks.yaml"@
        },
{
    reveal_strlit(".pre-commit-config.yaml");
    reveal_strlit(".pre-commit-hooks.yaml");
    paths::a_slash_joins_on_unix(directory, CONFIG_FILE@);
    paths::a_slash_joins_on_unix(directory, MANIFEST_FILE@);
    if !paths::is_verbatim(Platform::Windows, directory) {
        paths::a_backslash_joins_on_windows(directory, CONFIG_FILE@);
        paths::a_backslash_joins_on_windows(directory, MANIFEST_FILE@);
    }
}

/// A result is taken by what it holds, on either side.
pub proof fn a_result_is_taken_by_what_it_holds<T: View, E: View>(value: T, error: E)
    ensures
        outcome(Ok::<T, E>(value)) == Ok::<T::V, E::V>(value@),
        outcome(Err::<T, E>(error)) == Err::<T::V, E::V>(error@),
{
}

} // verus!
