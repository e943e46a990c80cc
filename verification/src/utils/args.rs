//! The command line: its values, and the checks of the paths it names.
use crate::utils::{path_join, spec_path_join};
use vstd::prelude::*;

verus! {

/// The command line: verbose output, and what to start.
pub struct Args {
    pub verbose: bool,
    pub start: StartKind,
}

/// What to start: the language server on a workspace, the interactive
/// initialisation, or following the log.
pub enum StartKind {
    Lsp { workspace: String },
    Init,
    Log,
}

/// The characters of a `Result` of strings.
pub open spec fn result_view(r: Result<String, String>) -> Result<Seq<char>, Seq<char>> {
    match r {
        Ok(s) => Ok(s@),
        Err(e) => Err(e@),
    }
}

/// The check of a directory argument `s`: accepted when it exists and is a
/// directory.
pub open spec fn dir_check(s: Seq<char>, exists: bool, is_dir: bool) -> Result<Seq<char>, Seq<char>> {
    if exists {
        if !is_dir {
            Err("Path is not a directory: "@ + s)
        } else {
            Ok(s)
        }
    } else {
        Err("Directory does not exist: "@ + s)
    }
}

/// The check of a file argument `s`: accepted when it exists and is a file.
pub open spec fn file_check(s: Seq<char>, exists: bool, is_file: bool) -> Result<Seq<char>, Seq<char>> {
    if exists {
        if !is_file {
            Err("Path is not a file: "@ + s)
        } else {
            Ok(s)
        }
    } else {
        Err("File does not exist: "@ + s)
    }
}

/// The check of a directory argument `s` relative to the working directory
/// `cwd`: accepted, as given, when `cwd` joined with `s` exists and is a directory.
pub open spec fn relative_dir_check(s: Seq<char>, cwd: Seq<char>, exists: bool, is_dir: bool) -> Result<
    Seq<char>,
    Seq<char>,
> {
    if exists {
        if !is_dir {
            Err("Path is not a directory: "@ + s)
        } else {
            Ok(s)
        }
    } else {
        Err("Directory does not exist: "@ + s + ", path must be relative to "@ + cwd)
    }
}

/// The check of the workspace argument `s`: a directory that holds the
/// configuration file.
pub open spec fn workspace_check(
    s: Seq<char>,
    cwd: Seq<char>,
    exists: bool,
    is_dir: bool,
    config_exists: bool,
) -> Result<Seq<char>, Seq<char>> {
    match dir_check(s, exists, is_dir) {
        Err(e) => Err(e),
        Ok(p) => if !config_exists {
            Err("Cannot start lsp, config file do not exists in: "@ + spec_path_join(cwd, s))
        } else {
            Ok(p)
        },
    }
}

/// `prefix` followed by `s`.
fn join2(prefix: &str, s: &str) -> (r: String)
    ensures
        r@ == prefix@ + s@,
{
    let mut r = String::from_str(prefix);
    r.append(s);
    r
}

/// Checks the directory argument `s`, given whether the path exists and
/// whether it is a directory.
pub fn validate_dir(s: &str, exists: bool, is_dir: bool) -> (r: Result<String, String>)
    ensures
        result_view(r) == dir_check(s@, exists, is_dir),
{
    if exists {
        if !is_dir {
            return Err(join2("Path is not a directory: ", s));
        }
        Ok(s.to_owned())
    } else {
        Err(join2("Directory does not exist: ", s))
    }
}

/// Checks the file argument `s`, given whether the path exists and whether it
/// is a file.
pub fn validate_file(s: &str, exists: bool, is_file: bool) -> (r: Result<String, String>)
    ensures
        result_view(r) == file_check(s@, exists, is_file),
{
    if exists {
        if !is_file {
            return Err(join2("Path is not a file: ", s));
        }
        Ok(s.to_owned())
    } else {
        Err(join2("File does not exist: ", s))
    }
}

/// Checks the directory argument `s`, relative to the working directory `cwd`,
/// given whether `cwd` joined with `s` exists and whether it is a directory.
pub fn validate_relative_dir(s: &str, cwd: &str, exists: bool, is_dir: bool) -> (r: Result<
    String,
    String,
>)
    ensures
        result_view(r) == relative_dir_check(s@, cwd@, exists, is_dir),
{
    if exists {
        if !is_dir {
            return Err(join2("Path is not a directory: ", s));
        }
        Ok(s.to_owned())
    } else {
        let mut e = join2("Directory does not exist: ", s);
        e.append(", path must be relative to ");
        e.append(cwd);
        Err(e)
    }
}

/// Checks the workspace argument `s`, given whether it exists, whether it is
/// a directory, and whether it holds the configuration file; `cwd` is the
/// working directory that the error names the workspace under.
pub fn validate_workspace(
    s: &str,
    cwd: &str,
    exists: bool,
    is_dir: bool,
    config_exists: bool,
) -> (r: Result<String, String>)
    ensures
        result_view(r) == workspace_check(s@, cwd@, exists, is_dir, config_exists),
{
    let path = validate_dir(s, exists, is_dir)?;
    if !config_exists {
        let full = path_join(cwd, s);
        return Err(join2("Cannot start lsp, config file do not exists in: ", full.as_str()));
    }
    Ok(path)
}

} // verus!
