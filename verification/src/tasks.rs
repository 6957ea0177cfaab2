//! The repository's maintenance tasks as far as they decide anything: the
//! command lines of the coverage runs, the release version check, and the
//! reports of a release.  Running the commands and editing the manifest is
//! the task runner's part.
use vstd::prelude::*;

use crate::matcher::views;
use crate::text::{push_str, string_from_chars};

verus! {

/// Where the coverage report is written.
pub fn stable_coverage_path() -> (r: &'static str)
    ensures
        r@ == "target/coverage.json"@,
{
    "target/coverage.json"
}

/// The arguments of `cargo` for a coverage run: `llvm-cov`, then the
/// nextest options when nextest is installed (else `-q`), the JSON report
/// options with the 90% region floor, and the extra arguments.
pub open spec fn spec_coverage_args(
    has_nextest: bool,
    coverage_path: Seq<char>,
    extra: Seq<Seq<char>>,
) -> Seq<Seq<char>> {
    seq!["llvm-cov"@] + (if has_nextest {
        seq![
            "nextest"@,
            "--status-level"@,
            "none"@,
            "--failure-output"@,
            "immediate-final"@,
            "--show-progress"@,
            "none"@,
        ]
    } else {
        seq!["-q"@]
    }) + seq!["--json"@, "--output-path"@, coverage_path, "--fail-under-regions=90"@] + extra
}

fn push_arg(args: &mut Vec<String>, arg: &str)
    ensures
        views(final(args)@) == views(old(args)@).push(arg@),
{
    args.push(String::from_str(arg));
    assert(views(args@) =~= views(old(args)@).push(arg@));
}

fn push_args(args: &mut Vec<String>, extra: &Vec<String>)
    ensures
        views(final(args)@) == views(old(args)@) + views(extra@),
{
    let ghost start = views(args@);
    let mut i: usize = 0;
    while i < extra.len()
        invariant
            i <= extra@.len(),
            views(args@) == start + views(extra@).take(i as int),
        decreases extra@.len() - i,
    {
        push_arg(args, extra[i].as_str());
        assert(views(extra@).take(i + 1) =~= views(extra@).take(i as int).push(extra@[i as int]@));
        assert(views(args@) =~= start + views(extra@).take(i + 1));
        i += 1;
    }
    assert(views(extra@).take(extra@.len() as int) =~= views(extra@));
}

pub fn coverage_args(has_nextest: bool, coverage_path: &str, extra: &Vec<String>) -> (r: Vec<String>)
    ensures
        views(r@) == spec_coverage_args(has_nextest, coverage_path@, views(extra@)),
{
    let mut args: Vec<String> = Vec::new();
    push_arg(&mut args, "llvm-cov");
    if has_nextest {
        push_arg(&mut args, "nextest");
        push_arg(&mut args, "--status-level");
        push_arg(&mut args, "none");
        push_arg(&mut args, "--failure-output");
        push_arg(&mut args, "immediate-final");
        push_arg(&mut args, "--show-progress");
        push_arg(&mut args, "none");
    } else {
        push_arg(&mut args, "-q");
    }
    push_arg(&mut args, "--json");
    push_arg(&mut args, "--output-path");
    push_arg(&mut args, coverage_path);
    push_arg(&mut args, "--fail-under-regions=90");
    push_args(&mut args, extra);
    assert(views(args@) =~= spec_coverage_args(has_nextest, coverage_path@, views(extra@)));
    args
}

/// The arguments of `covgate`: `check`, the coverage report, then the
/// extra arguments.
pub fn covgate_args(coverage_path: &str, extra: &Vec<String>) -> (r: Vec<String>)
    ensures
        views(r@) == seq!["check"@, coverage_path@] + views(extra@),
{
    let mut args: Vec<String> = Vec::new();
    push_arg(&mut args, "check");
    push_arg(&mut args, coverage_path);
    push_args(&mut args, extra);
    assert(views(args@) =~= seq!["check"@, coverage_path@] + views(extra@));
    args
}

/// The words of a command joined with single spaces.
pub open spec fn spaced(words: Seq<Seq<char>>) -> Seq<char>
    decreases words.len(),
{
    if words.len() == 0 {
        seq![]
    } else if words.len() == 1 {
        words[0]
    } else {
        spaced(words.drop_last()) + " "@ + words.last()
    }
}

/// The line a task prints before it runs a command: `> program args`.
pub fn command_line(program: &str, args: &Vec<String>) -> (r: String)
    ensures
        r@ == "> "@ + program@ + " "@ + spaced(views(args@)),
{
    let ghost w = views(args@);
    let mut out: Vec<char> = Vec::new();
    push_str(&mut out, "> ");
    push_str(&mut out, program);
    push_str(&mut out, " ");
    let ghost head = out@;
    let mut i: usize = 0;
    assert(w.take(0) =~= Seq::<Seq<char>>::empty());
    while i < args.len()
        invariant
            i <= args@.len(),
            w == views(args@),
            out@ == head + spaced(w.take(i as int)),
        decreases args@.len() - i,
    {
        if i > 0 {
            push_str(&mut out, " ");
        }
        push_str(&mut out, args[i].as_str());
        assert(w.take(i + 1).drop_last() =~= w.take(i as int));
        assert(out@ =~= head + spaced(w.take(i + 1)));
        i += 1;
    }
    assert(w.take(args@.len() as int) =~= w);
    string_from_chars(out.as_slice())
}

// ---------------------------------------------------------------------------
// Releases
// ---------------------------------------------------------------------------
/// What `semver::Version::parse` followed by its `Display` gives for a
/// text: the version as semver writes it, or none when the text is not a
/// version.
pub uninterp spec fn semver_rendering(text: Seq<char>) -> Option<Seq<char>>;

/// Calls `semver::Version::parse(text)` and renders the version with its
/// `Display` impl.  The result depends on the text alone; the contract
/// names it.
#[verifier::external_body]
fn semver_render(text: &str) -> (r: Option<String>)
    ensures
        match r {
            Some(s) => semver_rendering(text@) == Some(s@),
            None => semver_rendering(text@) is None,
        },
{
    semver::Version::parse(text).ok().map(|v| v.to_string())
}

/// The version a release is made at, as the manifest will hold it; a text
/// that is not a SemVer version is refused.
pub fn release_version_text(version: &str) -> (r: Result<String, String>)
    ensures
        match semver_rendering(version@) {
            Some(s) => r is Ok && r->Ok_0@ == s,
            None => r is Err && r->Err_0@ == "invalid SemVer version `"@ + version@ + "`"@,
        },
{
    match semver_render(version) {
        Some(s) => Ok(s),
        None => {
            let mut msg: Vec<char> = Vec::new();
            push_str(&mut msg, "invalid SemVer version `");
            push_str(&mut msg, version);
            push_str(&mut msg, "`");
            Err(string_from_chars(msg.as_slice()))
        },
    }
}

/// Which files a release changed.
pub struct ReleaseVersionSummary {
    pub manifest_changed: bool,
    pub lockfile_changed: bool,
}

impl ReleaseVersionSummary {
    /// The changed files in the order they are reported: `Cargo.toml`,
    /// then `Cargo.lock`.
    pub fn changed_files(&self) -> (r: Vec<&'static str>)
        ensures
            r@.map_values(|s: &str| s@) == (if self.manifest_changed {
                seq!["Cargo.toml"@]
            } else {
                Seq::<Seq<char>>::empty()
            }) + (if self.lockfile_changed {
                seq!["Cargo.lock"@]
            } else {
                Seq::<Seq<char>>::empty()
            }),
    {
        let mut changed: Vec<&'static str> = Vec::new();
        if self.manifest_changed {
            changed.push("Cargo.toml");
        }
        if self.lockfile_changed {
            changed.push("Cargo.lock");
        }
        assert(changed@.map_values(|s: &str| s@) =~= (if self.manifest_changed {
            seq!["Cargo.toml"@]
        } else {
            Seq::<Seq<char>>::empty()
        }) + (if self.lockfile_changed {
            seq!["Cargo.lock"@]
        } else {
            Seq::<Seq<char>>::empty()
        }));
        changed
    }
}

// ---------------------------------------------------------------------------
// The manifest's version
// ---------------------------------------------------------------------------
/// What `toml_edit` reads of a manifest's `[package].version`: the parser's
/// message for a text that is not TOML; else none when there is no
/// `[package]` table with a `version`, `Some(None)` when that version is not
/// a string, and the string otherwise.
pub uninterp spec fn toml_package_version(manifest: Seq<char>) -> Result<
    Option<Option<Seq<char>>>,
    Seq<char>,
>;

/// Parses `manifest` as a `toml_edit::DocumentMut` and reads the
/// `version` entry of its `[package]` table.  The result depends on the
/// text alone; the contract names it.
#[verifier::external_body]
fn package_version(manifest: &str) -> (r: Result<Option<Option<String>>, String>)
    ensures
        match r {
            Ok(Some(Some(v))) => toml_package_version(manifest@) == Ok::<
                Option<Option<Seq<char>>>,
                Seq<char>,
            >(Some(Some(v@))),
            Ok(Some(None)) => toml_package_version(manifest@) == Ok::<
                Option<Option<Seq<char>>>,
                Seq<char>,
            >(Some(None)),
            Ok(None) => toml_package_version(manifest@) == Ok::<Option<Option<Seq<char>>>, Seq<char>>(
                None,
            ),
            Err(e) => toml_package_version(manifest@) == Err::<Option<Option<Seq<char>>>, Seq<char>>(
                e@,
            ),
        },
{
    let document = manifest.parse::<toml_edit::DocumentMut>().map_err(|error| error.to_string())?;
    let item = document.as_table().get("package").and_then(toml_edit::Item::as_table);
    Ok(item.and_then(|table| table.get("version")).map(|v| v.as_str().map(str::to_string)))
}

/// What `toml_edit` makes of a manifest whose `[package].version` is set to
/// the TOML string `"<version>"`, keeping the entry's surrounding
/// whitespace and comments and the rest of the document as it was; none
/// when the text is not TOML, has no such string entry, or the value does
/// not parse.
pub uninterp spec fn toml_with_version(manifest: Seq<char>, version: Seq<char>) -> Option<Seq<char>>;

/// Parses `manifest` as a `toml_edit::DocumentMut`, replaces the value of
/// `[package].version` by `"<version>"` with the old value's decoration,
/// and prints the document.  The result depends on the two texts alone;
/// the contract names it, and states what a read gives back of the write:
/// the new text's `[package].version` is the version (a version without a
/// backslash, which a TOML basic string would read as an escape).
#[verifier::external_body]
fn with_package_version(manifest: &str, version: &str) -> (r: Option<String>)
    ensures
        match r {
            Some(t) => toml_with_version(manifest@, version@) == Some(t@) && (!version@.contains(
                '\\',
            ) ==> toml_package_version(t@) == Ok::<Option<Option<Seq<char>>>, Seq<char>>(
                Some(Some(version@)),
            )),
            None => toml_with_version(manifest@, version@) is None,
        },
{
    let mut document = manifest.parse::<toml_edit::DocumentMut>().ok()?;
    let item = document.as_table_mut().get_mut("package")?.as_table_mut()?.get_mut("version")?;
    let decor = item.as_value()?.decor().clone();
    let mut value = format!("\"{version}\"").parse::<toml_edit::Value>().ok()?;
    *value.decor_mut() = decor;
    *item = toml_edit::Item::Value(value);
    Some(document.to_string())
}

/// The manifest after a release at `version` (the version as semver
/// renders it): none when `[package].version` already holds it, else the
/// manifest with that entry replaced, whose `[package].version` then holds
/// the version, so that a second release at the same version changes
/// nothing.  A manifest that is not TOML gives
/// the parser's message; one without a string `[package].version` gives the
/// reason.
pub fn updated_manifest(manifest: &str, version: &str) -> (r: Result<Option<String>, String>)
    ensures
        match toml_package_version(manifest@) {
            Err(e) => r is Err && r->Err_0@ == e,
            Ok(None) => r is Err && r->Err_0@ == "Cargo.toml has no [package].version"@,
            Ok(Some(None)) => r is Err && r->Err_0@ == "Cargo.toml has non-string [package].version"@,
            Ok(Some(Some(current))) => if current == version@ {
                r == Ok::<Option<String>, String>(None)
            } else {
                match toml_with_version(manifest@, version@) {
                    Some(t) => r is Ok && r->Ok_0 is Some && r->Ok_0->0@ == t && (!version@.contains(
                        '\\',
                    ) ==> toml_package_version(t) == Ok::<Option<Option<Seq<char>>>, Seq<char>>(
                        Some(Some(version@)),
                    )),
                    None => r is Err && r->Err_0@
                        == "failed to encode SemVer version for Cargo.toml"@,
                }
            },
        },
{
    match package_version(manifest) {
        Err(e) => Err(e),
        Ok(None) => Err(String::from_str("Cargo.toml has no [package].version")),
        Ok(Some(None)) => Err(String::from_str("Cargo.toml has non-string [package].version")),
        Ok(Some(Some(current))) => {
            if crate::text::str_eq(current.as_str(), version) {
                return Ok(None);
            }
            match with_package_version(manifest, version) {
                Some(t) => Ok(Some(t)),
                None => Err(String::from_str("failed to encode SemVer version for Cargo.toml")),
            }
        },
    }
}

} // verus!
