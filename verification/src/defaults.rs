//! Built-in defaults: the scan patterns, the file extensions and the file
//! names that count as local repository paths.
use vstd::prelude::*;

use crate::strset::StringSet;

verus! {

/// Patterns scanned when the configuration names no `include` patterns.
pub open spec fn default_scan_patterns() -> Seq<Seq<char>> {
    seq!["docs/**"@, "README.md"@, "AGENTS.md"@, "*.md"@]
}

pub open spec fn default_extension_list() -> Seq<Seq<char>> {
    seq![
        ".md"@, ".mdx"@, ".txt"@, ".rst"@, ".adoc"@, ".html"@, ".css"@, ".scss"@, ".js"@,
        ".jsx"@, ".ts"@, ".tsx"@, ".json"@, ".jsonc"@, ".yaml"@, ".yml"@, ".toml"@, ".ini"@,
        ".cfg"@, ".conf"@, ".sh"@, ".bash"@, ".zsh"@, ".fish"@, ".ps1"@, ".py"@, ".rb"@,
        ".rs"@, ".go"@, ".java"@, ".kt"@, ".swift"@, ".c"@, ".h"@, ".cpp"@, ".cc"@, ".hpp"@,
        ".cs"@, ".csproj"@, ".fs"@, ".sql"@, ".tf"@, ".tfvars"@, ".proto"@, ".xml"@, ".xsd"@,
        ".svg"@, ".dart"@, ".elm"@, ".ex"@, ".exs"@, ".php"@, ".pl"@, ".lua"@, ".r"@,
        ".scala"@, ".dockerfile"@, ".gradle"@, ".make"@, ".mk"@,
    ]
}

pub open spec fn default_special_filename_list() -> Seq<Seq<char>> {
    seq![
        "README"@, "README.md"@, "AGENTS.md"@, "LICENSE"@, "LICENSE.md"@, "Cargo.toml"@,
        "Cargo.lock"@, "Makefile"@, "Justfile"@, "Dockerfile"@, ".gitignore"@,
        ".editorconfig"@,
    ]
}

/// The scan patterns as owned strings.
pub fn default_scan_patterns_vec() -> (r: Vec<String>)
    ensures
        r@.map_values(|s: String| s@) == default_scan_patterns(),
{
    let v: Vec<String> = vec![
        String::from_str("docs/**"),
        String::from_str("README.md"),
        String::from_str("AGENTS.md"),
        String::from_str("*.md"),
    ];
    assert(v@.map_values(|s: String| s@) =~= default_scan_patterns());
    v
}

/// A set holding exactly the given names.
fn set_of(names: &[&str]) -> (s: StringSet)
    ensures
        s.wf(),
        s.members() == names@.map_values(|n: &str| n@).to_set(),
{
    let mut s = StringSet::new();
    let mut i: usize = 0;
    assert(s.members() =~= names@.map_values(|n: &str| n@).take(0).to_set());
    while i < names.len()
        invariant
            i <= names@.len(),
            s.wf(),
            s.members() == names@.map_values(|n: &str| n@).take(i as int).to_set(),
        decreases names@.len() - i,
    {
        s.insert(String::from_str(names[i]));
        proof {
            let all = names@.map_values(|n: &str| n@);
            assert(all.take(i + 1) =~= all.take(i as int).push(names@[i as int]@));
            all.take(i as int).lemma_push_to_set_commute(names@[i as int]@);
            assert(all.take(i + 1).to_set() =~= all.take(i as int).to_set().insert(
                names@[i as int]@,
            ));
        }
        i += 1;
    }
    assert(names@.map_values(|n: &str| n@).take(names@.len() as int) =~= names@.map_values(
        |n: &str| n@,
    ));
    s
}

pub fn default_extensions() -> (s: StringSet)
    ensures
        s.wf(),
        s.members() == default_extension_list().to_set(),
{
    let names: [&str; 60] = [
        ".md", ".mdx", ".txt", ".rst", ".adoc", ".html", ".css", ".scss", ".js", ".jsx", ".ts",
        ".tsx", ".json", ".jsonc", ".yaml", ".yml", ".toml", ".ini", ".cfg", ".conf", ".sh",
        ".bash", ".zsh", ".fish", ".ps1", ".py", ".rb", ".rs", ".go", ".java", ".kt", ".swift",
        ".c", ".h", ".cpp", ".cc", ".hpp", ".cs", ".csproj", ".fs", ".sql", ".tf", ".tfvars",
        ".proto", ".xml", ".xsd", ".svg", ".dart", ".elm", ".ex", ".exs", ".php", ".pl", ".lua",
        ".r", ".scala", ".dockerfile", ".gradle", ".make", ".mk",
    ];
    let s = set_of(&names);
    assert(names@.map_values(|n: &str| n@) =~= default_extension_list());
    s
}

pub fn default_special_filenames() -> (s: StringSet)
    ensures
        s.wf(),
        s.members() == default_special_filename_list().to_set(),
{
    let names: [&str; 12] = [
        "README", "README.md", "AGENTS.md", "LICENSE", "LICENSE.md", "Cargo.toml", "Cargo.lock",
        "Makefile", "Justfile", "Dockerfile", ".gitignore", ".editorconfig",
    ];
    let s = set_of(&names);
    assert(names@.map_values(|n: &str| n@) =~= default_special_filename_list());
    s
}

} // verus!
