//! Configurations and manifests: what a project asks for and what a repository offers.

use vstd::prelude::*;

use crate::language::Language;
use crate::stage::Stage;

verus! {

/// The name of a project's configuration file.
pub const CONFIG_FILE: &'static str = ".pre-commit-config.yaml";

/// The name of the file in which a repository lists its hooks.
pub const MANIFEST_FILE: &'static str = ".pre-commit-hooks.yaml";

/// A hook, as a repository's manifest or a local repository describes it.
#[derive(Debug)]
pub struct ManifestHook {
    pub id: String,
    pub name: String,
    pub language: Language,
    pub alias: Option<String>,
    pub files: Option<String>,
    pub exclude: Option<String>,
    pub types: Option<Vec<String>>,
    pub stages: Option<Vec<Stage>>,
    pub language_version: Option<String>,
    pub additional_dependencies: Option<Vec<String>>,
}

/// What a [`ManifestHook`] says.
pub struct ManifestHookView {
    pub id: Seq<char>,
    pub name: Seq<char>,
    pub language: Language,
    pub alias: Option<Seq<char>>,
    pub files: Option<Seq<char>>,
    pub exclude: Option<Seq<char>>,
    pub types: Option<Seq<Seq<char>>>,
    pub stages: Option<Seq<Stage>>,
    pub language_version: Option<Seq<char>>,
    pub additional_dependencies: Option<Seq<Seq<char>>>,
}

impl View for ManifestHook {
    type V = ManifestHookView;

    open spec fn view(&self) -> ManifestHookView {
        ManifestHookView {
            id: self.id@,
            name: self.name@,
            language: self.language,
            alias: self.alias.deep_view(),
            files: self.files.deep_view(),
            exclude: self.exclude.deep_view(),
            types: self.types.deep_view(),
            stages: self.stages.deep_view(),
            language_version: self.language_version.deep_view(),
            additional_dependencies: self.additional_dependencies.deep_view(),
        }
    }
}

impl DeepView for ManifestHook {
    type V = ManifestHookView;

    open spec fn deep_view(&self) -> ManifestHookView {
        self@
    }
}

/// The same optional text again.
pub(crate) fn clone_text(text: &Option<String>) -> (copy: Option<String>)
    ensures
        copy.deep_view() == text.deep_view(),
{
    match text {
        Some(text) => Some(text.clone()),
        None => None,
    }
}

/// The same texts again.
pub(crate) fn clone_texts(texts: &Vec<String>) -> (copy: Vec<String>)
    ensures
        copy.deep_view() == texts.deep_view(),
{
    let copy = texts.clone();
    assert(copy.deep_view() =~= texts.deep_view());
    copy
}

/// The same optional list of texts again.
pub(crate) fn clone_list(list: &Option<Vec<String>>) -> (copy: Option<Vec<String>>)
    ensures
        copy.deep_view() == list.deep_view(),
{
    match list {
        Some(texts) => Some(clone_texts(texts)),
        None => None,
    }
}

/// The same optional list of stages again.
pub(crate) fn clone_stages(stages: &Option<Vec<Stage>>) -> (copy: Option<Vec<Stage>>)
    ensures
        copy.deep_view() == stages.deep_view(),
{
    match stages {
        Some(list) => {
            let copy = list.clone();
            assert(copy.deep_view() =~= list.deep_view());
            Some(copy)
        },
        None => None,
    }
}

impl Clone for ManifestHook {
    fn clone(&self) -> (copy: Self)
        ensures
            copy@ == self@,
    {
        ManifestHook {
            id: self.id.clone(),
            name: self.name.clone(),
            language: self.language,
            alias: clone_text(&self.alias),
            files: clone_text(&self.files),
            exclude: clone_text(&self.exclude),
            types: clone_list(&self.types),
            stages: clone_stages(&self.stages),
            language_version: clone_text(&self.language_version),
            additional_dependencies: clone_list(&self.additional_dependencies),
        }
    }
}

/// The same hooks again.
pub(crate) fn clone_hooks(hooks: &Vec<ManifestHook>) -> (copy: Vec<ManifestHook>)
    ensures
        copy.deep_view() == hooks.deep_view(),
{
    let copy = hooks.clone();
    assert(copy.deep_view() =~= hooks.deep_view());
    copy
}

/// A hook of a local repository, which is described in full where it is configured.
pub type ConfigLocalHook = ManifestHook;

/// A hook that a project takes from a remote repository. Whatever the manifest says of the
/// hook can be said otherwise here.
#[derive(Debug)]
pub struct ConfigRemoteHook {
    pub id: String,
    pub name: Option<String>,
    pub language: Option<Language>,
    pub alias: Option<String>,
    pub files: Option<String>,
    pub exclude: Option<String>,
    pub types: Option<Vec<String>>,
    pub stages: Option<Vec<Stage>>,
    pub language_version: Option<String>,
    pub additional_dependencies: Option<Vec<String>>,
}

/// What a [`ConfigRemoteHook`] says.
pub struct ConfigRemoteHookView {
    pub id: Seq<char>,
    pub name: Option<Seq<char>>,
    pub language: Option<Language>,
    pub alias: Option<Seq<char>>,
    pub files: Option<Seq<char>>,
    pub exclude: Option<Seq<char>>,
    pub types: Option<Seq<Seq<char>>>,
    pub stages: Option<Seq<Stage>>,
    pub language_version: Option<Seq<char>>,
    pub additional_dependencies: Option<Seq<Seq<char>>>,
}

impl View for ConfigRemoteHook {
    type V = ConfigRemoteHookView;

    open spec fn view(&self) -> ConfigRemoteHookView {
        ConfigRemoteHookView {
            id: self.id@,
            name: self.name.deep_view(),
            language: self.language,
            alias: self.alias.deep_view(),
            files: self.files.deep_view(),
            exclude: self.exclude.deep_view(),
            types: self.types.deep_view(),
            stages: self.stages.deep_view(),
            language_version: self.language_version.deep_view(),
            additional_dependencies: self.additional_dependencies.deep_view(),
        }
    }
}

impl DeepView for ConfigRemoteHook {
    type V = ConfigRemoteHookView;

    open spec fn deep_view(&self) -> ConfigRemoteHookView {
        self@
    }
}

/// A remote repository and the hooks that a project takes from it.
#[derive(Debug)]
pub struct ConfigRemoteRepo {
    pub repo: String,
    pub rev: String,
    pub hooks: Vec<ConfigRemoteHook>,
}

/// What a [`ConfigRemoteRepo`] says.
pub struct ConfigRemoteRepoView {
    pub repo: Seq<char>,
    pub rev: Seq<char>,
    pub hooks: Seq<ConfigRemoteHookView>,
}

impl View for ConfigRemoteRepo {
    type V = ConfigRemoteRepoView;

    open spec fn view(&self) -> ConfigRemoteRepoView {
        ConfigRemoteRepoView {
            repo: self.repo@,
            rev: self.rev@,
            hooks: self.hooks.deep_view(),
        }
    }
}

/// The hooks that a project describes by itself.
#[derive(Debug)]
pub struct ConfigLocalRepo {
    pub hooks: Vec<ConfigLocalHook>,
}

/// A repository of a project's configuration.
#[derive(Debug)]
pub enum ConfigRepo {
    Remote(ConfigRemoteRepo),
    Local(ConfigLocalRepo),
    Meta,
}

/// What a [`ConfigRepo`] says.
pub enum ConfigRepoView {
    Remote(ConfigRemoteRepoView),
    Local(Seq<ManifestHookView>),
    Meta,
}

impl View for ConfigRepo {
    type V = ConfigRepoView;

    open spec fn view(&self) -> ConfigRepoView {
        match self {
            ConfigRepo::Remote(repo) => ConfigRepoView::Remote(repo@),
            ConfigRepo::Local(repo) => ConfigRepoView::Local(repo.hooks.deep_view()),
            ConfigRepo::Meta => ConfigRepoView::Meta,
        }
    }
}

impl DeepView for ConfigRepo {
    type V = ConfigRepoView;

    open spec fn deep_view(&self) -> ConfigRepoView {
        self@
    }
}

/// A project's configuration.
#[derive(Debug)]
pub struct ConfigWire {
    pub repos: Vec<ConfigRepo>,
    /// The version of a language that hooks use which name none.
    pub default_language_version: Vec<(Language, String)>,
    /// The stages of the hooks that name none.
    pub default_stages: Option<Vec<Stage>>,
}

/// What a [`ConfigWire`] says.
pub struct ConfigWireView {
    pub repos: Seq<ConfigRepoView>,
    pub default_language_version: Seq<(Language, Seq<char>)>,
    pub default_stages: Option<Seq<Stage>>,
}

impl View for ConfigWire {
    type V = ConfigWireView;

    open spec fn view(&self) -> ConfigWireView {
        ConfigWireView {
            repos: self.repos.deep_view(),
            default_language_version: self.default_language_version.deep_view(),
            default_stages: self.default_stages.deep_view(),
        }
    }
}

/// The hooks that a repository offers.
#[derive(Debug)]
pub struct Manifest {
    pub hooks: Vec<ManifestHook>,
}

/// `first` where it is given, else `second`.
pub open spec fn given_or<T>(first: Option<T>, second: Option<T>) -> Option<T> {
    if first is Some {
        first
    } else {
        second
    }
}

/// The version that a list of defaults has for `language`: that of its first entry for it.
pub open spec fn default_version(
    defaults: Seq<(Language, Seq<char>)>,
    language: Language,
) -> Option<Seq<char>>
    decreases defaults.len(),
{
    if defaults.len() == 0 {
        None
    } else if defaults[0].0 == language {
        Some(defaults[0].1)
    } else {
        default_version(defaults.drop_first(), language)
    }
}

/// A manifest's hook, with what a project says otherwise of it.
pub open spec fn updated(hook: ManifestHookView, config: ConfigRemoteHookView) -> ManifestHookView {
    ManifestHookView {
        id: hook.id,
        name: match config.name {
            Some(name) => name,
            None => hook.name,
        },
        language: match config.language {
            Some(language) => language,
            None => hook.language,
        },
        alias: given_or(config.alias, hook.alias),
        files: given_or(config.files, hook.files),
        exclude: given_or(config.exclude, hook.exclude),
        types: given_or(config.types, hook.types),
        stages: given_or(config.stages, hook.stages),
        language_version: given_or(config.language_version, hook.language_version),
        additional_dependencies: given_or(
            config.additional_dependencies,
            hook.additional_dependencies,
        ),
    }
}

/// A hook, with the project's defaults for what it leaves open.
pub open spec fn filled(hook: ManifestHookView, config: ConfigWireView) -> ManifestHookView {
    ManifestHookView {
        language_version: given_or(
            hook.language_version,
            default_version(config.default_language_version, hook.language),
        ),
        stages: given_or(hook.stages, config.default_stages),
        ..hook
    }
}

impl ManifestHook {
    /// Takes over what the project says otherwise of the hook.
    pub fn update(&mut self, config: &ConfigRemoteHook)
        ensures
            final(self)@ == updated(old(self)@, config@),
    {
        if let Some(name) = &config.name {
            self.name = name.clone();
        }
        if let Some(language) = config.language {
            self.language = language;
        }
        if config.alias.is_some() {
            self.alias = clone_text(&config.alias);
        }
        if config.files.is_some() {
            self.files = clone_text(&config.files);
        }
        if config.exclude.is_some() {
            self.exclude = clone_text(&config.exclude);
        }
        if config.types.is_some() {
            self.types = clone_list(&config.types);
        }
        if config.stages.is_some() {
            self.stages = clone_stages(&config.stages);
        }
        if config.language_version.is_some() {
            self.language_version = clone_text(&config.language_version);
        }
        if config.additional_dependencies.is_some() {
            self.additional_dependencies = clone_list(&config.additional_dependencies);
        }
    }

    /// Takes the project's defaults for what the hook leaves open.
    pub fn fill(&mut self, config: &ConfigWire)
        ensures
            final(self)@ == filled(old(self)@, config@),
    {
        if self.language_version.is_none() {
            self.language_version = config.default_version(self.language);
        }
        if self.stages.is_none() {
            self.stages = clone_stages(&config.default_stages);
        }
    }
}

impl ConfigWire {
    /// The version that hooks of `language` use which name none, if there is a default.
    pub fn default_version(&self, language: Language) -> (version: Option<String>)
        ensures
            version.deep_view() == default_version(self@.default_language_version, language),
    {
        let defaults = &self.default_language_version;
        let ghost all = self@.default_language_version;
        assert(all.skip(0) =~= all);
        for i in 0..defaults.len()
            invariant
                all == self@.default_language_version,
                all == defaults.deep_view(),
                default_version(all, language) == default_version(all.skip(i as int), language),
        {
            assert(all.skip(i as int).drop_first() =~= all.skip(i + 1));
            if defaults[i].0 == language {
                return Some(defaults[i].1.clone());
            }
        }
        None
    }
}

/// Defaults fill what is open and nothing else, so to fill a hook twice is to fill it once.
pub proof fn to_fill_a_hook_twice_is_to_fill_it_once(hook: ManifestHookView, config: ConfigWireView)
    ensures
        filled(filled(hook, config), config) == filled(hook, config),
{
}

/// A hook keeps the id under which the project found it, whatever else the project says of it.
pub proof fn a_hook_keeps_its_id(
    hook: ManifestHookView,
    wanted: ConfigRemoteHookView,
    config: ConfigWireView,
)
    ensures
        filled(updated(hook, wanted), config).id == hook.id,
{
}

/// What the project says of a hook comes before what the manifest says, and this before the
/// project's defaults.
pub proof fn what_the_project_says_comes_first(
    hook: ManifestHookView,
    wanted: ConfigRemoteHookView,
    config: ConfigWireView,
)
    ensures
        ({
            let resolved = filled(updated(hook, wanted), config);
            let default = default_version(config.default_language_version, resolved.language);
            &&& resolved.language_version == given_or(
                wanted.language_version,
                given_or(hook.language_version, default),
            )
            &&& resolved.stages == given_or(
                wanted.stages,
                given_or(hook.stages, config.default_stages),
            )
        }),
{
}

/// Whether `version` is the one that `defaults` have for `language`: that of the first entry
/// for it, and none exactly if there is no entry for it.
pub open spec fn is_default_version(
    defaults: Seq<(Language, Seq<char>)>,
    language: Language,
    version: Option<Seq<char>>,
) -> bool {
    match version {
        Some(version) => exists|i: int|
            0 <= i < defaults.len() && #[trigger] defaults[i] == (language, version) && forall|
                j: int,
            |
                0 <= j < i ==> (#[trigger] defaults[j]).0 != language,
        None => forall|i: int| 0 <= i < defaults.len() ==> (#[trigger] defaults[i]).0 != language,
    }
}

/// Of the defaults for a language the first one counts.
pub proof fn the_first_default_of_a_language_counts(
    defaults: Seq<(Language, Seq<char>)>,
    language: Language,
)
    ensures
        is_default_version(defaults, language, default_version(defaults, language)),
    decreases defaults.len(),
{
    if defaults.len() > 0 && defaults[0].0 != language {
        let rest = defaults.drop_first();
        the_first_default_of_a_language_counts(rest, language);
        match default_version(rest, language) {
            Some(version) => {
                let i = choose|i: int|
                    0 <= i < rest.len() && #[trigger] rest[i] == (language, version) && forall|
                        j: int,
                    |
                        0 <= j < i ==> (#[trigger] rest[j]).0 != language;
                assert(defaults[i + 1] == (language, version));
                assert forall|j: int| 0 <= j < i + 1 implies (#[trigger] defaults[j]).0
                    != language by {
                    if j > 0 {
                        assert(rest[j - 1] == defaults[j]);
                    }
                }
            },
            None => {
                assert forall|i: int| 0 <= i < defaults.len() implies (#[trigger] defaults[i]).0
                    != language by {
                    if i > 0 {
                        assert(rest[i - 1] == defaults[i]);
                    }
                }
            },
        }
    } else if defaults.len() > 0 {
        assert(defaults[0] == (language, defaults[0].1));
    }
}

/// What a project's entry gives, the updated hook has; what the entry leaves open, the hook
/// has from the manifest. This holds of every option; the id stays.
pub proof fn an_entry_overrides_the_manifest(hook: ManifestHookView, entry: ConfigRemoteHookView)
    ensures
        ({
            let now = updated(hook, entry);
            &&& now.id == hook.id
            &&& entry.name matches Some(name) ==> now.name == name
            &&& entry.name is None ==> now.name == hook.name
            &&& entry.language matches Some(language) ==> now.language == language
            &&& entry.language is None ==> now.language == hook.language
            &&& entry.alias is Some ==> now.alias == entry.alias
            &&& entry.alias is None ==> now.alias == hook.alias
            &&& entry.files is Some ==> now.files == entry.files
            &&& entry.files is None ==> now.files == hook.files
            &&& entry.exclude is Some ==> now.exclude == entry.exclude
            &&& entry.exclude is None ==> now.exclude == hook.exclude
            &&& entry.types is Some ==> now.types == entry.types
            &&& entry.types is None ==> now.types == hook.types
            &&& entry.stages is Some ==> now.stages == entry.stages
            &&& entry.stages is None ==> now.stages == hook.stages
            &&& entry.language_version is Some ==> now.language_version == entry.language_version
            &&& entry.language_version is None ==> now.language_version == hook.language_version
            &&& entry.additional_dependencies is Some ==> now.additional_dependencies
                == entry.additional_dependencies
            &&& entry.additional_dependencies is None ==> now.additional_dependencies
                == hook.additional_dependencies
        }),
{
}

/// The options of a hook that no defaults are for.
pub open spec fn same_but_for_defaults(one: ManifestHookView, other: ManifestHookView) -> bool {
    &&& one.id == other.id
    &&& one.name == other.name
    &&& one.language == other.language
    &&& one.alias == other.alias
    &&& one.files == other.files
    &&& one.exclude == other.exclude
    &&& one.types == other.types
    &&& one.additional_dependencies == other.additional_dependencies
}

/// Whether `hook` is `described`, with the project's defaults: a language version and stages
/// that are given stay, those that are not are the project's, and all else is the same.
pub open spec fn has_defaults(
    hook: ManifestHookView,
    described: ManifestHookView,
    config: ConfigWireView,
) -> bool {
    &&& same_but_for_defaults(hook, described)
    &&& described.language_version is Some ==> hook.language_version == described.language_version
    &&& described.language_version is None ==> is_default_version(
        config.default_language_version,
        hook.language,
        hook.language_version,
    )
    &&& described.stages is Some ==> hook.stages == described.stages
    &&& described.stages is None ==> hook.stages == config.default_stages
}

/// A hook is filled with the project's defaults exactly where it leaves something open.
pub proof fn a_hook_gets_the_defaults_that_it_leaves_open(
    hook: ManifestHookView,
    config: ConfigWireView,
)
    ensures
        has_defaults(filled(hook, config), hook, config),
{
    the_first_default_of_a_language_counts(config.default_language_version, hook.language);
}

/// Whether `hook` is what a project gets that asks for `entry`, where the manifest offers
/// `offered`: of each option what the entry gives, else what the manifest gives, and of the
/// language version and the stages, where neither gives any, the project's default.
pub open spec fn is_as_asked_for(
    hook: ManifestHookView,
    offered: ManifestHookView,
    entry: ConfigRemoteHookView,
    config: ConfigWireView,
) -> bool {
    &&& hook.id == offered.id
    &&& hook.name == match entry.name {
        Some(name) => name,
        None => offered.name,
    }
    &&& hook.language == match entry.language {
        Some(language) => language,
        None => offered.language,
    }
    &&& hook.alias == if entry.alias is Some { entry.alias } else { offered.alias }
    &&& hook.files == if entry.files is Some { entry.files } else { offered.files }
    &&& hook.exclude == if entry.exclude is Some { entry.exclude } else { offered.exclude }
    &&& hook.types == if entry.types is Some { entry.types } else { offered.types }
    &&& hook.additional_dependencies == if entry.additional_dependencies is Some {
        entry.additional_dependencies
    } else {
        offered.additional_dependencies
    }
    &&& match (entry.language_version, offered.language_version) {
        (Some(version), _) => hook.language_version == Some(version),
        (None, Some(version)) => hook.language_version == Some(version),
        (None, None) => is_default_version(
            config.default_language_version,
            hook.language,
            hook.language_version,
        ),
    }
    &&& match (entry.stages, offered.stages) {
        (Some(stages), _) => hook.stages == Some(stages),
        (None, Some(stages)) => hook.stages == Some(stages),
        (None, None) => hook.stages == config.default_stages,
    }
}

/// To update a hook and to fill it is to get what is asked for.
pub proof fn a_hook_is_updated_and_then_filled(
    offered: ManifestHookView,
    entry: ConfigRemoteHookView,
    config: ConfigWireView,
)
    ensures
        is_as_asked_for(filled(updated(offered, entry), config), offered, entry, config),
{
    an_entry_overrides_the_manifest(offered, entry);
    a_hook_gets_the_defaults_that_it_leaves_open(updated(offered, entry), config);
}

} // verus!
