use vstd::prelude::*;

verus! {

/// What the command line asks for.
#[derive(Debug)]
pub struct Args {
    pub command: Commands,
}

/// The commands of the command line.
#[derive(Debug)]
pub enum Commands {
    /// Build a service.
    Build {
        /// The directory of the service to build.
        service_path: String,
        /// A git branch: where given, the service is built only if a file it
        /// is built from differs from that branch.
        check: Option<String>,
        /// Arguments handed on to the image builder.
        docker_build_args: Vec<String>,
    },
    /// Empty the build cache.
    Clean,
}

} // verus!
