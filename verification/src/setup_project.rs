//! The project setting that the command-line setup tool writes, whose name
//! falls back to the working directory's name for the placeholder names.
use crate::loaders::LoadersKind;
use crate::utils::project_config::{project_name, resolve_project_name};
use vstd::prelude::*;

verus! {

/// One project as the setup tool records it: its name, root directory and
/// i18n library.
pub struct ProjectSetting {
    pub name: String,
    pub root: String,
    pub loader: LoadersKind,
}

impl ProjectSetting {
    /// The project `name` rooted at `root`, using `loader`. The placeholder
    /// names `my-project` and `my_project` are replaced by `cwd_name`, the
    /// name of the working directory, when it has one.
    pub fn new(name: &str, root: &str, loader: LoadersKind, cwd_name: Option<&str>) -> (r: Self)
        ensures
            r.name@ == project_name(
                name@,
                match cwd_name {
                    Some(d) => Some(d@),
                    None => None,
                },
            ),
            r.root@ == root@,
            r.loader == loader,
    {
        ProjectSetting { name: resolve_project_name(name, cwd_name), root: root.to_owned(), loader }
    }
}

} // verus!
