//! The project settings stored in the configuration file.
use crate::loaders::LoadersKind;
use vstd::prelude::*;

verus! {

/// One project: its name, root directory, i18n library and translations directory.
pub struct ProjectSetting {
    pub name: String,
    pub root: String,
    pub loader: LoadersKind,
    pub locales: String,
}

impl ProjectSetting {
    /// The project `name` rooted at `root`, using `loader`, with its
    /// translations in `translation`.
    pub fn new(name: &str, root: &str, loader: LoadersKind, translation: &str) -> (r: Self)
        ensures
            r.name@ == name@,
            r.root@ == root@,
            r.loader == loader,
            r.locales@ == translation@,
    {
        ProjectSetting {
            name: name.to_owned(),
            root: root.to_owned(),
            loader,
            locales: translation.to_owned(),
        }
    }
}

/// The configuration file: a list of projects.
pub struct ProjectsConfig {
    pub project: Vec<ProjectSetting>,
}

/// The name a project is given: the working directory's name `cwd_name`, when
/// known, stands in for the placeholder names `my-project` and `my_project`.
pub open spec fn project_name(name: Seq<char>, cwd_name: Option<Seq<char>>) -> Seq<char> {
    if name == "my-project"@ || name == "my_project"@ {
        match cwd_name {
            Some(d) => d,
            None => name,
        }
    } else {
        name
    }
}

/// The name a project is given for `name`, where `cwd_name` is the name of the
/// working directory, if it has one.
pub fn resolve_project_name(name: &str, cwd_name: Option<&str>) -> (r: String)
    ensures
        r@ == project_name(name@, match cwd_name {
            Some(d) => Some(d@),
            None => None,
        }),
{
    let mut final_name = name.to_owned();
    if crate::text::str_eq(name, "my-project") || crate::text::str_eq(name, "my_project") {
        if let Some(dir_name) = cwd_name {
            final_name = dir_name.to_owned();
        }
    }
    final_name
}

} // verus!
