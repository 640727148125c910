//! The languages that hooks are written in.

use vstd::prelude::*;

verus! {

/// What a hook is run with.
#[derive(Debug, Clone, Copy, PartialEq, Eq, Structural)]
pub enum Language {
    Conda,
    Coursier,
    Dart,
    Docker,
    DockerImage,
    Dotnet,
    Fail,
    Golang,
    Haskell,
    Julia,
    Lua,
    Node,
    Perl,
    Pygrep,
    Python,
    R,
    Ruby,
    Rust,
    Script,
    Swift,
    System,
}

impl DeepView for Language {
    type V = Language;

    open spec fn deep_view(&self) -> Language {
        *self
    }
}

/// The name of the directory that a language installs a hook to, if it installs anything.
pub open spec fn environment_name(language: Language) -> Option<Seq<char>> {
    match language {
        Language::Conda => Some("conda"@),
        Language::Coursier => Some("coursier"@),
        Language::Dart => Some("dartenv"@),
        Language::Docker => Some("docker"@),
        Language::Dotnet => Some("dotnetenv"@),
        Language::Golang => Some("golangenv"@),
        Language::Haskell => Some("hs_env"@),
        Language::Julia => Some("juliaenv"@),
        Language::Lua => Some("lua_env"@),
        Language::Node => Some("node_env"@),
        Language::Perl => Some("perl_env"@),
        Language::Python => Some("py_env"@),
        Language::R => Some("renv"@),
        Language::Ruby => Some("rbenv"@),
        Language::Rust => Some("rustenv"@),
        Language::Swift => Some("swift_env"@),
        Language::DockerImage => None,
        Language::Fail => None,
        Language::Pygrep => None,
        Language::Script => None,
        Language::System => None,
    }
}

/// A language needs an environment exactly if it has a directory to install one to.
pub open spec fn needs_environment(language: Language) -> bool {
    environment_name(language) is Some
}

impl Language {
    /// The name of the directory that hooks of this language are installed to, or `None` if
    /// nothing is installed for them.
    pub fn environment_dir(&self) -> (dir: Option<&'static str>)
        ensures
            dir.deep_view() == environment_name(*self),
    {
        match self {
            Language::Conda => Some("conda"),
            Language::Coursier => Some("coursier"),
            Language::Dart => Some("dartenv"),
            Language::Docker => Some("docker"),
            Language::Dotnet => Some("dotnetenv"),
            Language::Golang => Some("golangenv"),
            Language::Haskell => Some("hs_env"),
            Language::Julia => Some("juliaenv"),
            Language::Lua => Some("lua_env"),
            Language::Node => Some("node_env"),
            Language::Perl => Some("perl_env"),
            Language::Python => Some("py_env"),
            Language::R => Some("renv"),
            Language::Ruby => Some("rbenv"),
            Language::Rust => Some("rustenv"),
            Language::Swift => Some("swift_env"),
            Language::DockerImage => None,
            Language::Fail => None,
            Language::Pygrep => None,
            Language::Script => None,
            Language::System => None,
        }
    }

    /// Whether a hook of this language is installed to an environment before it can run.
    pub fn need_environment(&self) -> (needed: bool)
        ensures
            needed == needs_environment(*self),
    {
        self.environment_dir().is_some()
    }
}

/// The names of the directories that languages install hooks to, and the languages that
/// install nothing. No two languages share a directory.
pub proof fn each_language_has_a_directory_of_its_own(one: Language, other: Language)
    ensures
        environment_name(one) == match one {
            Language::DockerImage | Language::Fail | Language::Pygrep | Language::Script
            | Language::System => None,
            Language::Conda => Some("conda"@),
            Language::Coursier => Some("coursier"@),
            Language::Dart => Some("dartenv"@),
            Language::Docker => Some("docker"@),
            Language::Dotnet => Some("dotnetenv"@),
            Language::Golang => Some("golangenv"@),
            Language::Haskell => Some("hs_env"@),
            Language::Julia => Some("juliaenv"@),
            Language::Lua => Some("lua_env"@),
            Language::Node => Some("node_env"@),
            Language::Perl => Some("perl_env"@),
            Language::Python => Some("py_env"@),
            Language::R => Some("renv"@),
            Language::Ruby => Some("rbenv"@),
            Language::Rust => Some("rustenv"@),
            Language::Swift => Some("swift_env"@),
        },
        needs_environment(one) <==> !(one == Language::DockerImage || one == Language::Fail || one
            == Language::Pygrep || one == Language::Script || one == Language::System),
        one != other && needs_environment(one) ==> environment_name(one) != environment_name(
            other,
        ),
{
    lemma_names_revealed();
    if let (Some(name), Some(another)) = (environment_name(one), environment_name(other)) {
        if name == another {
            assert(name.len() == another.len());
            assert(name[0] == another[0] && name[1] == another[1] && name[2] == another[2]);
        }
    }
}

/// What the names of the directories are made of.
pub proof fn lemma_environment_name(language: Language)
    ensures
        environment_name(language) matches Some(name) ==> {
            &&& name.len() >= 4
            &&& forall|i: int|
                0 <= i < name.len() ==> 'a' <= #[trigger] name[i] <= 'z' || name[i] == '_'
            &&& name[1] != ':'
        },
{
    lemma_names_revealed();
}

proof fn lemma_names_revealed()
    ensures
        "conda"@ == seq!['c', 'o', 'n', 'd', 'a'],
        "coursier"@ == seq!['c', 'o', 'u', 'r', 's', 'i', 'e', 'r'],
        "dartenv"@ == seq!['d', 'a', 'r', 't', 'e', 'n', 'v'],
        "docker"@ == seq!['d', 'o', 'c', 'k', 'e', 'r'],
        "dotnetenv"@ == seq!['d', 'o', 't', 'n', 'e', 't', 'e', 'n', 'v'],
        "golangenv"@ == seq!['g', 'o', 'l', 'a', 'n', 'g', 'e', 'n', 'v'],
        "hs_env"@ == seq!['h', 's', '_', 'e', 'n', 'v'],
        "juliaenv"@ == seq!['j', 'u', 'l', 'i', 'a', 'e', 'n', 'v'],
        "lua_env"@ == seq!['l', 'u', 'a', '_', 'e', 'n', 'v'],
        "node_env"@ == seq!['n', 'o', 'd', 'e', '_', 'e', 'n', 'v'],
        "perl_env"@ == seq!['p', 'e', 'r', 'l', '_', 'e', 'n', 'v'],
        "py_env"@ == seq!['p', 'y', '_', 'e', 'n', 'v'],
        "renv"@ == seq!['r', 'e', 'n', 'v'],
        "rbenv"@ == seq!['r', 'b', 'e', 'n', 'v'],
        "rustenv"@ == seq!['r', 'u', 's', 't', 'e', 'n', 'v'],
        "swift_env"@ == seq!['s', 'w', 'i', 'f', 't', '_', 'e', 'n', 'v'],
{
    reveal_strlit("conda");
    reveal_strlit("coursier");
    reveal_strlit("dartenv");
    reveal_strlit("docker");
    reveal_strlit("dotnetenv");
    reveal_strlit("golangenv");
    reveal_strlit("hs_env");
    reveal_strlit("juliaenv");
    reveal_strlit("lua_env");
    reveal_strlit("node_env");
    reveal_strlit("perl_env");
    reveal_strlit("py_env");
    reveal_strlit("renv");
    reveal_strlit("rbenv");
    reveal_strlit("rustenv");
    reveal_strlit("swift_env");
}

} // verus!
