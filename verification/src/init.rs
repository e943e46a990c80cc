//! The decisions of the interactive initialisation.
use crate::utils::args::result_view;
use vstd::prelude::*;

verus! {

/// The name of the configuration file, in a project's directory.
pub const FILE_NAME: &'static str = "i18n-hero.toml";

/// The check of a directory typed at the prompt: accepted when it exists and
/// is a directory; else the error to report before asking again.
pub open spec fn prompted_dir_check(dir: Seq<char>, exists: bool, is_dir: bool) -> Result<
    Seq<char>,
    Seq<char>,
> {
    if exists {
        if !is_dir {
            Err("Path is not a directory: "@ + dir + " "@)
        } else {
            Ok(dir)
        }
    } else {
        Err("Directory does not exist: "@ + dir + ", path must be relative to cwd"@)
    }
}

/// Checks the directory `dir` typed at the prompt, given whether it exists
/// (relative to the working directory) and whether it is a directory.
pub fn check_prompted_dir(dir: &str, exists: bool, is_dir: bool) -> (r: Result<String, String>)
    ensures
        result_view(r) == prompted_dir_check(dir@, exists, is_dir),
{
    if exists {
        if !is_dir {
            let mut e = String::from_str("Path is not a directory: ");
            e.append(dir);
            e.append(" ");
            return Err(e);
        }
        Ok(dir.to_owned())
    } else {
        let mut e = String::from_str("Directory does not exist: ");
        e.append(dir);
        e.append(", path must be relative to cwd");
        Err(e)
    }
}

} // verus!
