//! The projects of a workspace, each with its root directory and its keys.
use crate::completion::completion::Completion;
use crate::completion::completion_data::CompletionData;
use crate::completion::completion_doc::CompletionDocData;
use crate::string_map::StringMap;
use crate::text::{has_prefix, spec_to_lowercase, str_starts_with};
use crate::utils::join_relate_to_cwd;
use crate::utils::project_config::ProjectsConfig;
use crate::utils::relative_to;
use vstd::prelude::*;

verus! {

/// A project: the path its files start with, and its translation keys.
pub struct Project {
    pub start_path: String,
    pub completion: Completion,
}

/// The projects of a workspace.
pub struct Projects {
    pub projects: Vec<Project>,
}

/// The data stored for the sample key: the key `hello.world`, with the `en`
/// translation `This is a test` from `./locales/en.toml`.
pub open spec fn is_sample_data(d: CompletionData) -> bool {
    &&& d.completion@ == "hello.world"@
    &&& d.documentation.wf()
    &&& d.documentation.doc@.dom() == set!["en"@]
    &&& d.documentation.doc@["en"@].info@ == "This is a test"@
    &&& d.documentation.doc@["en"@].file@ == "./locales/en.toml"@
}

/// The keys every project is loaded with: the locales `en` and `fr`, and the
/// single sample key.
pub open spec fn is_sample_completion(c: Completion) -> bool {
    let k = spec_to_lowercase("hello.world"@);
    &&& c.wf()
    &&& c.locales() == seq!["en"@, "fr"@]
    &&& c.key_pairs() == seq![("hello.world"@, k)]
    &&& c.data().dom() == set![k]
    &&& is_sample_data(c.data()[k])
}

impl Projects {
    /// The invariant: each project's keys are well formed.
    pub open spec fn wf(&self) -> bool {
        forall|i: int| 0 <= i < self.projects@.len() ==> (#[trigger] self.projects@[i]).completion.wf()
    }

    /// The first project whose start path is a prefix of `path`.
    pub fn get_project(&self, path: &str) -> (r: Option<&Project>)
        ensures
            r matches Some(p) ==> exists|i: int|
                0 <= i < self.projects@.len() && *p == self.projects@[i] && has_prefix(
                    path@,
                    self.projects@[i].start_path@,
                ) && forall|j: int|
                    0 <= j < i ==> !has_prefix(path@, #[trigger] self.projects@[j].start_path@),
            r is None ==> forall|i: int|
                0 <= i < self.projects@.len() ==> !has_prefix(
                    path@,
                    #[trigger] self.projects@[i].start_path@,
                ),
    {
        let mut i: usize = 0;
        while i < self.projects.len()
            invariant
                i <= self.projects@.len(),
                forall|j: int|
                    0 <= j < i ==> !has_prefix(path@, #[trigger] self.projects@[j].start_path@),
            decreases self.projects@.len() - i,
        {
            if str_starts_with(path, self.projects[i].start_path.as_str()) {
                return Some(&self.projects[i]);
            }
            i = i + 1;
        }
        None
    }

    /// The projects of the configuration `value`, in order, each starting at
    /// its root taken relative to the working directory `cwd`, each loaded with
    /// the sample keys.
    pub fn from_config(value: ProjectsConfig, cwd: &str) -> (r: Projects)
        ensures
            r.wf(),
            r.projects@.len() == value.project@.len(),
            forall|i: int|
                0 <= i < r.projects@.len() ==> (#[trigger] r.projects@[i]).start_path@ == relative_to(
                    cwd@,
                    value.project@[i].root@,
                ) && is_sample_completion(r.projects@[i].completion),
    {
        let mut projects: Vec<Project> = Vec::new();
        let mut i: usize = 0;
        while i < value.project.len()
            invariant
                i <= value.project@.len(),
                projects@.len() == i,
                forall|k: int|
                    0 <= k < i ==> (#[trigger] projects@[k]).start_path@ == relative_to(
                        cwd@,
                        value.project@[k].root@,
                    ) && is_sample_completion(projects@[k].completion),
            decreases value.project@.len() - i,
        {
            let available_locales = vec![String::from_str("en"), String::from_str("fr")];
            let mut doc = StringMap::new();
            doc.insert(
                String::from_str("en"),
                CompletionDocData::new("This is a test", "./locales/en.toml"),
            );
            let mut completions = Completion::new();
            completions.set_available_locales(&available_locales);
            assert(crate::text::views(available_locales@) =~= seq!["en"@, "fr"@]);
            let data = CompletionData::new("hello.world", doc);
            assert(data.documentation.doc@.dom() =~= set!["en"@]);
            completions.add_completion(data);
            assert(completions.data().dom() =~= set![spec_to_lowercase("hello.world"@)]);
            assert(completions.key_pairs() =~= seq![("hello.world"@, spec_to_lowercase("hello.world"@))]);
            let start_path = join_relate_to_cwd(cwd, value.project[i].root.as_str());
            projects.push(Project { start_path, completion: completions });
            i = i + 1;
        }
        Projects { projects }
    }
}

} // verus!
