use vstd::prelude::*;
use vstd::string::StrSliceExecFns;

verus! {

/// The ecosystems whose disposable directories the scanner can recognise.
#[derive(Debug, Clone, Copy, PartialEq, Eq, Hash, Structural)]
pub enum ProjectType {
    Rust,
    Node,
    Python,
    JavaMaven,
    Gradle,
    DotNet,
    NextJs,
    NuxtJs,
}

/// Display name of each ecosystem.
pub open spec fn spec_name(pt: ProjectType) -> Seq<char> {
    match pt {
        ProjectType::Rust => "Rust"@,
        ProjectType::Node => "Node.js"@,
        ProjectType::Python => "Python"@,
        ProjectType::JavaMaven => "Java (Maven)"@,
        ProjectType::Gradle => "Gradle"@,
        ProjectType::DotNet => ".NET"@,
        ProjectType::NextJs => "Next.js"@,
        ProjectType::NuxtJs => "Nuxt.js"@,
    }
}

/// The fixed display order of the ecosystems. Grouping and listing always
/// consult this explicit enumeration, never a keyed container's iteration
/// order, so repeated runs render identically.
pub open spec fn spec_type_order() -> Seq<ProjectType> {
    seq![
        ProjectType::Rust,
        ProjectType::Node,
        ProjectType::Python,
        ProjectType::JavaMaven,
        ProjectType::Gradle,
        ProjectType::DotNet,
        ProjectType::NextJs,
        ProjectType::NuxtJs,
    ]
}

impl ProjectType {
    pub fn name(&self) -> (r: &'static str)
        ensures
            r@ == spec_name(*self),
    {
        match self {
            ProjectType::Rust => "Rust",
            ProjectType::Node => "Node.js",
            ProjectType::Python => "Python",
            ProjectType::JavaMaven => "Java (Maven)",
            ProjectType::Gradle => "Gradle",
            ProjectType::DotNet => ".NET",
            ProjectType::NextJs => "Next.js",
            ProjectType::NuxtJs => "Nuxt.js",
        }
    }

    pub fn all() -> (r: Vec<ProjectType>)
        ensures
            r@ == spec_type_order(),
    {
        let mut v: Vec<ProjectType> = Vec::new();
        v.push(ProjectType::Rust);
        v.push(ProjectType::Node);
        v.push(ProjectType::Python);
        v.push(ProjectType::JavaMaven);
        v.push(ProjectType::Gradle);
        v.push(ProjectType::DotNet);
        v.push(ProjectType::NextJs);
        v.push(ProjectType::NuxtJs);
        proof {
            assert(v@ =~= spec_type_order());
        }
        v
    }
}

/// The views of the strings in a list of file names.
pub open spec fn names_of(v: Seq<String>) -> Seq<Seq<char>> {
    v.map_values(|s: String| s@)
}

/// `p` is a (not necessarily strict) prefix of `s`.
pub open spec fn spec_is_prefix(p: Seq<char>, s: Seq<char>) -> bool {
    p.len() <= s.len() && s.take(p.len() as int) == p
}

/// Some name in `names` is exactly `filename`.
pub open spec fn spec_has_sibling(names: Seq<Seq<char>>, filename: Seq<char>) -> bool {
    exists|i: int| 0 <= i < names.len() && names[i] == filename
}

/// Some name in `names` begins with `pattern`.
pub open spec fn spec_has_sibling_matching(names: Seq<Seq<char>>, pattern: Seq<char>) -> bool {
    exists|i: int| 0 <= i < names.len() && spec_is_prefix(pattern, names[i])
}

/// A sibling-marker check, kept as plain data so the rule table is a static
/// list of records rather than dynamic dispatch.
#[derive(Debug, Clone, Copy)]
pub enum Validator {
    /// Accept unconditionally.
    Always,
    /// A sibling file with exactly this name must exist.
    Sibling(&'static str),
    /// A sibling file with exactly one of these two names must exist.
    SiblingEither(&'static str, &'static str),
    /// A sibling file whose name begins with this prefix must exist.
    SiblingPrefix(&'static str),
    /// A sibling file whose name begins with one of these prefixes must exist.
    SiblingPrefixAny3(&'static str, &'static str, &'static str),
}

/// What it means for a validator to accept a candidate directory whose
/// parent's children bear the given names.
pub open spec fn spec_validator_passes(v: Validator, names: Seq<Seq<char>>) -> bool {
    match v {
        Validator::Always => true,
        Validator::Sibling(f) => spec_has_sibling(names, f@),
        Validator::SiblingEither(a, b) => spec_has_sibling(names, a@) || spec_has_sibling(
            names,
            b@,
        ),
        Validator::SiblingPrefix(p) => spec_has_sibling_matching(names, p@),
        Validator::SiblingPrefixAny3(a, b, c) => spec_has_sibling_matching(names, a@)
            || spec_has_sibling_matching(names, b@) || spec_has_sibling_matching(names, c@),
    }
}

/// Character-for-character string equality.
pub fn str_eq(a: &str, b: &str) -> (r: bool)
    ensures
        r == (a@ == b@),
{
    let alen = a.unicode_len();
    let blen = b.unicode_len();
    if alen != blen {
        return false;
    }
    let mut i: usize = 0;
    while i < alen
        invariant
            alen == a@.len(),
            blen == b@.len(),
            alen == blen,
            i <= alen,
            forall|j: int| 0 <= j < i ==> a@[j] == b@[j],
        decreases alen - i,
    {
        if a.get_char(i) != b.get_char(i) {
            return false;
        }
        i += 1;
    }
    proof {
        assert(a@ =~= b@);
    }
    true
}

/// Does `s` begin with `prefix`?
pub fn str_starts_with(s: &str, prefix: &str) -> (r: bool)
    ensures
        r == spec_is_prefix(prefix@, s@),
{
    let plen = prefix.unicode_len();
    let slen = s.unicode_len();
    if plen > slen {
        return false;
    }
    let mut i: usize = 0;
    while i < plen
        invariant
            plen == prefix@.len(),
            slen == s@.len(),
            plen <= slen,
            i <= plen,
            forall|j: int| 0 <= j < i ==> s@[j] == prefix@[j],
        decreases plen - i,
    {
        if s.get_char(i) != prefix.get_char(i) {
            proof {
                assert(s@.take(plen as int)[i as int] == s@[i as int]);
            }
            return false;
        }
        i += 1;
    }
    proof {
        assert(s@.take(plen as int) =~= prefix@);
    }
    true
}

/// Is a sibling file named exactly `filename` present?
pub fn has_sibling(siblings: &Vec<String>, filename: &str) -> (r: bool)
    ensures
        r == spec_has_sibling(names_of(siblings@), filename@),
{
    let mut i: usize = 0;
    while i < siblings.len()
        invariant
            i <= siblings.len(),
            forall|j: int| 0 <= j < i ==> names_of(siblings@)[j] != filename@,
        decreases siblings.len() - i,
    {
        if str_eq(siblings[i].as_str(), filename) {
            proof {
                assert(names_of(siblings@)[i as int] == filename@);
            }
            return true;
        }
        i += 1;
    }
    false
}

/// Is a sibling file whose name begins with `pattern` present?
pub fn has_sibling_matching(siblings: &Vec<String>, pattern: &str) -> (r: bool)
    ensures
        r == spec_has_sibling_matching(names_of(siblings@), pattern@),
{
    let mut i: usize = 0;
    while i < siblings.len()
        invariant
            i <= siblings.len(),
            forall|j: int| 0 <= j < i ==> !spec_is_prefix(pattern@, names_of(siblings@)[j]),
        decreases siblings.len() - i,
    {
        if str_starts_with(siblings[i].as_str(), pattern) {
            proof {
                assert(spec_is_prefix(pattern@, names_of(siblings@)[i as int]));
            }
            return true;
        }
        i += 1;
    }
    false
}

/// Accepts any directory, whatever its siblings.
pub fn always_valid(siblings: &Vec<String>) -> (r: bool)
    ensures
        r == spec_validator_passes(Validator::Always, names_of(siblings@)),
{
    let _ = siblings;
    true
}

/// A Rust `target` directory must sit beside a `Cargo.toml`.
pub fn validate_rust(siblings: &Vec<String>) -> (r: bool)
    ensures
        r == spec_has_sibling(names_of(siblings@), "Cargo.toml"@),
{
    has_sibling(siblings, "Cargo.toml")
}

/// A `node_modules` directory must sit beside a `package.json`.
pub fn validate_node(siblings: &Vec<String>) -> (r: bool)
    ensures
        r == spec_has_sibling(names_of(siblings@), "package.json"@),
{
    has_sibling(siblings, "package.json")
}

/// A Maven `target` directory must sit beside a `pom.xml`.
pub fn validate_maven(siblings: &Vec<String>) -> (r: bool)
    ensures
        r == spec_has_sibling(names_of(siblings@), "pom.xml"@),
{
    has_sibling(siblings, "pom.xml")
}

/// A Gradle build directory must sit beside a Gradle build script.
pub fn validate_gradle(siblings: &Vec<String>) -> (r: bool)
    ensures
        r == (spec_has_sibling(names_of(siblings@), "build.gradle"@) || spec_has_sibling(
            names_of(siblings@),
            "build.gradle.kts"@,
        )),
{
    has_sibling(siblings, "build.gradle") || has_sibling(siblings, "build.gradle.kts")
}

/// A .NET output directory must sit beside a project or solution file.
pub fn validate_dotnet(siblings: &Vec<String>) -> (r: bool)
    ensures
        r == (spec_has_sibling_matching(names_of(siblings@), ".csproj"@)
            || spec_has_sibling_matching(names_of(siblings@), ".fsproj"@)
            || spec_has_sibling_matching(names_of(siblings@), ".sln"@)),
{
    has_sibling_matching(siblings, ".csproj") || has_sibling_matching(siblings, ".fsproj")
        || has_sibling_matching(siblings, ".sln")
}

/// A `.next` directory must sit beside a Next.js configuration file.
pub fn validate_nextjs(siblings: &Vec<String>) -> (r: bool)
    ensures
        r == spec_has_sibling_matching(names_of(siblings@), "next.config"@),
{
    has_sibling_matching(siblings, "next.config")
}

/// A `.nuxt` directory must sit beside a Nuxt.js configuration file.
pub fn validate_nuxtjs(siblings: &Vec<String>) -> (r: bool)
    ensures
        r == spec_has_sibling_matching(names_of(siblings@), "nuxt.config"@),
{
    has_sibling_matching(siblings, "nuxt.config")
}

/// Evaluates a validator against the names of a candidate's siblings.
pub fn validator_passes(v: &Validator, siblings: &Vec<String>) -> (r: bool)
    ensures
        r == spec_validator_passes(*v, names_of(siblings@)),
{
    match v {
        Validator::Always => always_valid(siblings),
        Validator::Sibling(f) => has_sibling(siblings, f),
        Validator::SiblingEither(a, b) => has_sibling(siblings, a) || has_sibling(siblings, b),
        Validator::SiblingPrefix(p) => has_sibling_matching(siblings, p),
        Validator::SiblingPrefixAny3(a, b, c) => has_sibling_matching(siblings, a)
            || has_sibling_matching(siblings, b) || has_sibling_matching(siblings, c),
    }
}

/// One row of the rule table: a candidate basename, the ecosystem it belongs
/// to, and the sibling-marker check that must pass before the name match is
/// accepted.
pub struct CleanableDir {
    pub dir_name: &'static str,
    pub project_type: ProjectType,
    pub validator: Validator,
}

/// The rule table as a mathematical sequence; first matching rule wins.
pub open spec fn spec_rules() -> Seq<CleanableDir> {
    seq![
        CleanableDir {
            dir_name: "target",
            project_type: ProjectType::Rust,
            validator: Validator::Sibling("Cargo.toml"),
        },
        CleanableDir {
            dir_name: "node_modules",
            project_type: ProjectType::Node,
            validator: Validator::Sibling("package.json"),
        },
        CleanableDir {
            dir_name: ".venv",
            project_type: ProjectType::Python,
            validator: Validator::Always,
        },
        CleanableDir {
            dir_name: "venv",
            project_type: ProjectType::Python,
            validator: Validator::Always,
        },
        CleanableDir {
            dir_name: "__pycache__",
            project_type: ProjectType::Python,
            validator: Validator::Always,
        },
        CleanableDir {
            dir_name: ".pytest_cache",
            project_type: ProjectType::Python,
            validator: Validator::Always,
        },
        CleanableDir {
            dir_name: ".mypy_cache",
            project_type: ProjectType::Python,
            validator: Validator::Always,
        },
        CleanableDir {
            dir_name: ".ruff_cache",
            project_type: ProjectType::Python,
            validator: Validator::Always,
        },
        CleanableDir {
            dir_name: ".tox",
            project_type: ProjectType::Python,
            validator: Validator::Always,
        },
        CleanableDir {
            dir_name: "target",
            project_type: ProjectType::JavaMaven,
            validator: Validator::Sibling("pom.xml"),
        },
        CleanableDir {
            dir_name: "build",
            project_type: ProjectType::Gradle,
            validator: Validator::SiblingEither("build.gradle", "build.gradle.kts"),
        },
        CleanableDir {
            dir_name: ".gradle",
            project_type: ProjectType::Gradle,
            validator: Validator::SiblingEither("build.gradle", "build.gradle.kts"),
        },
        CleanableDir {
            dir_name: "bin",
            project_type: ProjectType::DotNet,
            validator: Validator::SiblingPrefixAny3(".csproj", ".fsproj", ".sln"),
        },
        CleanableDir {
            dir_name: "obj",
            project_type: ProjectType::DotNet,
            validator: Validator::SiblingPrefixAny3(".csproj", ".fsproj", ".sln"),
        },
        CleanableDir {
            dir_name: ".next",
            project_type: ProjectType::NextJs,
            validator: Validator::SiblingPrefix("next.config"),
        },
        CleanableDir {
            dir_name: ".nuxt",
            project_type: ProjectType::NuxtJs,
            validator: Validator::SiblingPrefix("nuxt.config"),
        },
    ]
}

/// Builds the registry of cleanable-directory rules.
pub fn get_cleanable_dirs() -> (r: Vec<CleanableDir>)
    ensures
        r@ == spec_rules(),
{
    let mut v: Vec<CleanableDir> = Vec::new();
    v.push(CleanableDir {
        dir_name: "target",
        project_type: ProjectType::Rust,
        validator: Validator::Sibling("Cargo.toml"),
    });
    v.push(CleanableDir {
        dir_name: "node_modules",
        project_type: ProjectType::Node,
        validator: Validator::Sibling("package.json"),
    });
    v.push(CleanableDir {
        dir_name: ".venv",
        project_type: ProjectType::Python,
        validator: Validator::Always,
    });
    v.push(CleanableDir {
        dir_name: "venv",
        project_type: ProjectType::Python,
        validator: Validator::Always,
    });
    v.push(CleanableDir {
        dir_name: "__pycache__",
        project_type: ProjectType::Python,
        validator: Validator::Always,
    });
    v.push(CleanableDir {
        dir_name: ".pytest_cache",
        project_type: ProjectType::Python,
        validator: Validator::Always,
    });
    v.push(CleanableDir {
        dir_name: ".mypy_cache",
        project_type: ProjectType::Python,
        validator: Validator::Always,
    });
    v.push(CleanableDir {
        dir_name: ".ruff_cache",
        project_type: ProjectType::Python,
        validator: Validator::Always,
    });
    v.push(CleanableDir {
        dir_name: ".tox",
        project_type: ProjectType::Python,
        validator: Validator::Always,
    });
    v.push(CleanableDir {
        dir_name: "target",
        project_type: ProjectType::JavaMaven,
        validator: Validator::Sibling("pom.xml"),
    });
    v.push(CleanableDir {
        dir_name: "build",
        project_type: ProjectType::Gradle,
        validator: Validator::SiblingEither("build.gradle", "build.gradle.kts"),
    });
    v.push(CleanableDir {
        dir_name: ".gradle",
        project_type: ProjectType::Gradle,
        validator: Validator::SiblingEither("build.gradle", "build.gradle.kts"),
    });
    v.push(CleanableDir {
        dir_name: "bin",
        project_type: ProjectType::DotNet,
        validator: Validator::SiblingPrefixAny3(".csproj", ".fsproj", ".sln"),
    });
    v.push(CleanableDir {
        dir_name: "obj",
        project_type: ProjectType::DotNet,
        validator: Validator::SiblingPrefixAny3(".csproj", ".fsproj", ".sln"),
    });
    v.push(CleanableDir {
        dir_name: ".next",
        project_type: ProjectType::NextJs,
        validator: Validator::SiblingPrefix("next.config"),
    });
    v.push(CleanableDir {
        dir_name: ".nuxt",
        project_type: ProjectType::NuxtJs,
        validator: Validator::SiblingPrefix("nuxt.config"),
    });
    proof {
        assert(v@ =~= spec_rules());
    }
    v
}

} // verus!
