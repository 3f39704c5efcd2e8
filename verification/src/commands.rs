use crate::git::{any_changed, any_service_files_changed};
use crate::path::{join_path, joined_path};
use crate::text::{append_all, views};
use vstd::prelude::*;
use vstd::string::*;

verus! {

/// Whether a service has to be built. Without a check it always has. With a
/// check, `changed` lists the files that differ from the branch checked
/// against, and the service is built if one of them belongs to it.
pub fn build_needed(changed: &Option<Vec<String>>, service_paths: &Vec<String>) -> (needed: bool)
    ensures
        needed == match changed {
            Some(paths) => any_changed(views(paths@), views(service_paths@)),
            None => true,
        },
{
    match changed {
        Some(paths) => any_service_files_changed(paths, service_paths),
        None => true,
    }
}

/// The arguments with which the image builder is run on a sandbox: the
/// sandbox as build context, the Dockerfile of the service's copy in it, and
/// then the caller's own arguments.
pub fn docker_build_arguments(
    build_path: &str,
    service_path: &str,
    docker_build_args: &Vec<String>,
) -> (arguments: Vec<String>)
    ensures
        views(arguments@) == seq![
            "build"@,
            build_path@,
            "--file"@,
            joined_path(joined_path(build_path@, service_path@), "Dockerfile"@),
        ] + views(docker_build_args@),
{
    let service_copy = join_path(build_path, service_path);
    let mut arguments: Vec<String> = Vec::new();
    arguments.push(String::from_str("build"));
    arguments.push(String::from_str(build_path));
    arguments.push(String::from_str("--file"));
    arguments.push(join_path(service_copy.as_str(), "Dockerfile"));
    assert(views(arguments@) =~= seq![
        "build"@,
        build_path@,
        "--file"@,
        joined_path(joined_path(build_path@, service_path@), "Dockerfile"@),
    ]);
    append_all(&mut arguments, docker_build_args);
    arguments
}

} // verus!
