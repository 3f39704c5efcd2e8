use crate::config::BobpyConfig;
use crate::parsing::{
    all_locked, is_first_unlocked, requirements_listing, ServiceContext, UnlockedRequirement,
};
use crate::path::{is_rooted, join_path, joined_path, lemma_joined_apart};
use crate::text::{append_all, views};
use vstd::prelude::*;
use vstd::string::*;

verus! {

/// The directory below which every sandbox is made.
pub open spec fn cache_root() -> Seq<char> {
    joined_path(".bobpy"@, "builds"@)
}

/// The directory of the sandbox that `identifier` names: a fresh identifier
/// gives a fresh sandbox.
pub fn sandbox_path(identifier: &str) -> (path: String)
    ensures
        path@ == joined_path(cache_root(), identifier@),
{
    let root = join_path(".bobpy", "builds");
    join_path(root.as_str(), identifier)
}

/// Different identifiers name different sandboxes.
pub proof fn lemma_sandboxes_apart(one: Seq<char>, other: Seq<char>)
    requires
        !is_rooted(one),
        !is_rooted(other),
        one != other,
    ensures
        joined_path(cache_root(), one) != joined_path(cache_root(), other),
{
    if joined_path(cache_root(), one) == joined_path(cache_root(), other) {
        lemma_joined_apart(cache_root(), one, other);
    }
}

/// The file that marks a directory as a package, for the directory `dir`.
pub open spec fn marker_of(dir: Seq<char>) -> Seq<char> {
    joined_path(dir, "__init__.py"@)
}

/// The file that marks the directory `dir` as a package.
pub fn marker_of_dir(dir: &str) -> (file: String)
    ensures
        file@ == marker_of(dir@),
{
    join_path(dir, "__init__.py")
}

/// The marker file to create for `dir`, if any: the marker of `dir` where
/// `dir` is a directory and has no marker yet. What is no directory, or is
/// not there at all, gets none.
pub fn marker_to_write(dir: &str, is_dir: bool, has_marker: bool) -> (marker: Option<String>)
    ensures
        marker is Some <==> is_dir && !has_marker,
        marker matches Some(file) ==> file@ == marker_of(dir@),
{
    if is_dir && !has_marker {
        Some(marker_of_dir(dir))
    } else {
        None
    }
}

/// Everything that has to be put into a sandbox, decided before anything is
/// written.
#[derive(Debug)]
pub struct SandboxPlan {
    /// The sandbox directory.
    pub build_path: String,
    /// The sources to copy into the sandbox, in this order, each to its own
    /// relative path below `build_path`.
    pub sources: Vec<String>,
    /// The copy of the service's own directory in the sandbox.
    pub service_copy: String,
    /// Where the requirements listing goes: into the service's copy.
    pub requirements_file: String,
    /// The requirements listing.
    pub requirements: String,
    /// The directory below which every directory gets a package marker, once
    /// all copies are made.
    pub library_root: String,
}

impl ServiceContext {
    /// Plans the sandbox of this service in the directory `build_path`: the
    /// service's own directory, its extra paths and its libraries are copied,
    /// the requirements listing goes beside the service's copy, and markers
    /// go below the project's library directory. Fails, before anything is
    /// planned, where a requirement is not locked.
    pub fn plan_sandbox(&self, bobpy_config: &BobpyConfig, build_path: &str) -> (r: Result<
        SandboxPlan,
        UnlockedRequirement,
    >)
        ensures
            r is Ok <==> all_locked(
                self.dependencies.requirements.elements(),
                bobpy_config.requirement_lock@,
            ),
            r matches Ok(plan) ==> {
                &&& plan.build_path@ == build_path@
                &&& views(plan.sources@) == seq![self.path@] + self.dependencies.paths.elements()
                    + self.dependencies.libraries.elements()
                &&& plan.service_copy@ == joined_path(build_path@, self.path@)
                &&& plan.requirements_file@ == joined_path(
                    plan.service_copy@,
                    "requirements.txt"@,
                )
                &&& plan.requirements@ == requirements_listing(
                    self.dependencies.requirements.elements(),
                    bobpy_config.requirement_lock@,
                )
                &&& plan.library_root@ == joined_path(
                    build_path@,
                    bobpy_config.project.libraries_path@,
                )
            },
            r matches Err(e) ==> is_first_unlocked(
                self.dependencies.requirements.elements(),
                bobpy_config.requirement_lock@,
                e.name@,
            ),
    {
        let requirements = match self.render_requirements(&bobpy_config.requirement_lock) {
            Ok(text) => text,
            Err(e) => {
                return Err(e);
            },
        };
        let mut sources: Vec<String> = Vec::new();
        sources.push(self.path.clone());
        let paths = self.dependencies.paths.to_vec();
        let libraries = self.dependencies.libraries.to_vec();
        assert(views(sources@) =~= seq![self.path@]);
        append_all(&mut sources, &paths);
        append_all(&mut sources, &libraries);
        let service_copy = join_path(build_path, self.path.as_str());
        let requirements_file = join_path(service_copy.as_str(), "requirements.txt");
        Ok(
            SandboxPlan {
                build_path: String::from_str(build_path),
                sources,
                service_copy,
                requirements_file,
                requirements,
                library_root: join_path(
                    build_path,
                    bobpy_config.project.libraries_path.as_str(),
                ),
            },
        )
    }
}

} // verus!
