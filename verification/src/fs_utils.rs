use crate::path::{join_path, joined_path, parent_dir, parent_of};
use vstd::prelude::*;
use vstd::string::*;

verus! {

/// What has to be done on disk to copy one source into a target directory.
#[derive(Debug)]
pub enum CopyAction {
    /// Create `parent` with all its ancestors, then copy the file `from` to
    /// `to`. With `skip_exist`, a file that is already at `to` is left as it
    /// is and nothing is copied.
    File { from: String, parent: String, to: String, skip_exist: bool },
    /// Create `root` with all its ancestors, then copy what the directory
    /// `from` holds to `to`, file by file. With `content_only`, what `from`
    /// holds goes straight into `to`, whether `to` is there already or not.
    /// With `copy_inside`, directories that are missing on the way are made
    /// with their ancestors. With `skip_exist`, a file that `to` already has
    /// is left as it is.
    Tree {
        from: String,
        root: String,
        to: String,
        copy_inside: bool,
        content_only: bool,
        skip_exist: bool,
    },
}

/// Plans the copy of `from` into the directory `to`, where `from` keeps its own
/// relative path below `to`. `from_is_file` says whether `from` is a single
/// file. A directory is copied with all it holds, to the same place whether
/// part of it was copied there before or not. A file that is already at its
/// target is never overwritten, be it copied alone or as part of a
/// directory.
pub fn copy(from: &str, to: &str, from_is_file: bool) -> (action: CopyAction)
    ensures
        from_is_file ==> (action matches CopyAction::File {
            from: source,
            parent,
            to: target,
            skip_exist,
        } && source@ == from@ && target@ == joined_path(to@, from@) && parent@ == parent_of(
            target@,
        ) && skip_exist),
        !from_is_file ==> (action matches CopyAction::Tree {
            from: source,
            root,
            to: target,
            copy_inside,
            content_only,
            skip_exist,
        } && source@ == from@ && root@ == to@ && target@ == joined_path(to@, from@) && copy_inside
            && content_only && skip_exist),
{
    let todest = join_path(to, from);
    if from_is_file {
        let parent = parent_dir(todest.as_str());
        CopyAction::File { from: String::from_str(from), parent, to: todest, skip_exist: true }
    } else {
        CopyAction::Tree {
            from: String::from_str(from),
            root: String::from_str(to),
            to: todest,
            copy_inside: true,
            content_only: true,
            skip_exist: true,
        }
    }
}

} // verus!
