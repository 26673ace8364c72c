//! What may be deleted, and how.
use crate::paths::{law_nonempty_path_has_a_part, path_has_parent, path_parts, OsPath, PartKind};
use vstd::prelude::*;

verus! {

/// How a path is deleted.
#[derive(Debug, Clone, Copy, PartialEq, Eq, Structural)]
pub enum DeleteMode {
    Trash,
    Permanent,
}

/// Why a path is not deleted.
#[derive(Debug, Clone, Copy, PartialEq, Eq, Structural)]
pub enum DeleteError {
    EmptyPath,
    FilesystemRoot,
}

impl DeleteError {
    /// The words for the reason.
    pub open spec fn words(self) -> Seq<char> {
        match self {
            DeleteError::EmptyPath => "empty paths cannot be deleted"@,
            DeleteError::FilesystemRoot => "filesystem roots cannot be deleted"@,
        }
    }

    /// The words for the reason.
    pub fn message(&self) -> (r: &'static str)
        ensures
            r@ == self.words(),
    {
        match self {
            DeleteError::EmptyPath => "empty paths cannot be deleted",
            DeleteError::FilesystemRoot => "filesystem roots cannot be deleted",
        }
    }
}

/// Whether every part of a path is the root.
pub open spec fn is_all_root(path: Seq<u8>) -> bool {
    forall|i: int| 0 <= i < path_parts(path).len() ==> (#[trigger] path_parts(path)[i]).kind
        == PartKind::Root
}

/// What is said of the deletion of a path: empty paths and roots of file systems
/// are not deleted.
pub open spec fn deletable(path: Seq<u8>) -> Result<(), DeleteError> {
    if path.len() == 0 {
        Err(DeleteError::EmptyPath)
    } else if !path_has_parent(path) || is_all_root(path) {
        Err(DeleteError::FilesystemRoot)
    } else {
        Ok(())
    }
}

/// Refuses empty paths and the roots of file systems.
pub fn ensure_deletable(path: &OsPath) -> (r: Result<(), DeleteError>)
    ensures
        r == deletable(path@),
{
    if path.is_empty() {
        return Err(DeleteError::EmptyPath);
    }
    if !path.has_parent() || all_root(path) {
        return Err(DeleteError::FilesystemRoot);
    }
    Ok(())
}

fn all_root(path: &OsPath) -> (r: bool)
    ensures
        r == is_all_root(path@),
{
    let parts = path.parts();
    let ghost models = path_parts(path@);
    let mut i: usize = 0;
    while i < parts.len()
        invariant
            i <= parts@.len(),
            parts@.len() == models.len(),
            models == path_parts(path@),
            forall|k: int| 0 <= k < parts@.len() ==> #[trigger] parts@[k]@ == models[k],
            forall|k: int| 0 <= k < i ==> (#[trigger] models[k]).kind == PartKind::Root,
        decreases parts@.len() - i,
    {
        proof {
            assert(parts@[i as int]@ == models[i as int]);
        }
        if parts[i].kind != PartKind::Root {
            return false;
        }
        i = i + 1;
    }
    true
}

/// What is done to delete a path.
#[derive(Debug, Clone, Copy, PartialEq, Eq, Structural)]
pub enum DeleteAction {
    MoveToTrash,
    RemoveDirectory,
    RemoveFile,
}

/// How a path is deleted, if it is.
pub open spec fn deletion_plan(path: Seq<u8>, mode: DeleteMode, is_dir: bool) -> Result<
    DeleteAction,
    DeleteError,
> {
    match deletable(path) {
        Err(reason) => Err(reason),
        Ok(_) => Ok(
            match mode {
                DeleteMode::Trash => DeleteAction::MoveToTrash,
                DeleteMode::Permanent => if is_dir {
                    DeleteAction::RemoveDirectory
                } else {
                    DeleteAction::RemoveFile
                },
            },
        ),
    }
}

/// Decides how a path is deleted: into the trash, or for good, with everything in
/// it where it is a directory.
pub fn plan_deletion(path: &OsPath, mode: DeleteMode, is_dir: bool) -> (r: Result<
    DeleteAction,
    DeleteError,
>)
    ensures
        r == deletion_plan(path@, mode, is_dir),
{
    match ensure_deletable(path) {
        Err(reason) => Err(reason),
        Ok(_) => Ok(
            match mode {
                DeleteMode::Trash => DeleteAction::MoveToTrash,
                DeleteMode::Permanent => if is_dir {
                    DeleteAction::RemoveDirectory
                } else {
                    DeleteAction::RemoveFile
                },
            },
        ),
    }
}

/// A path that may be deleted names something: its last part is not the root, and
/// there is something that it lies in.
pub proof fn law_what_is_deleted_has_a_parent(path: Seq<u8>)
    requires
        deletable(path) is Ok,
    ensures
        path_has_parent(path),
        path_parts(path).len() > 0,
        path_parts(path).last().kind != PartKind::Root,
{
}

/// Empty paths are refused as such, and whatever else is not below something as the
/// root of a file system; everything else may be deleted.
pub proof fn law_everything_below_something_may_be_deleted(path: Seq<u8>)
    ensures
        path.len() == 0 ==> deletable(path) == Err::<(), DeleteError>(DeleteError::EmptyPath),
        path.len() > 0 ==> ({
            let parts = path_parts(path);
            &&& parts.len() > 0
            &&& parts[parts.len() - 1].kind == PartKind::Root ==> deletable(path) == Err::<
                (),
                DeleteError,
            >(DeleteError::FilesystemRoot)
            &&& parts[parts.len() - 1].kind != PartKind::Root ==> deletable(path) is Ok
        }),
{
    if path.len() > 0 {
        law_nonempty_path_has_a_part(path);
        let parts = path_parts(path);
        if parts[parts.len() - 1].kind != PartKind::Root {
            assert(parts.last().kind != PartKind::Root);
        }
    }
}

/// What is refused is refused however it would be deleted. What goes into the trash
/// goes there whatever it is; for good a directory is removed with all that is in it,
/// and anything else as a file.
pub proof fn law_deletions_follow_the_mode(path: Seq<u8>, is_dir: bool)
    ensures
        deletable(path) is Err ==> deletion_plan(path, DeleteMode::Trash, is_dir) is Err
            && deletion_plan(path, DeleteMode::Permanent, is_dir) is Err && deletion_plan(
            path,
            DeleteMode::Trash,
            is_dir,
        )->Err_0 == deletable(path)->Err_0 && deletion_plan(
            path,
            DeleteMode::Permanent,
            is_dir,
        )->Err_0 == deletable(path)->Err_0,
        deletable(path) is Ok ==> deletion_plan(path, DeleteMode::Trash, is_dir) == Ok::<
            DeleteAction,
            DeleteError,
        >(DeleteAction::MoveToTrash) && deletion_plan(path, DeleteMode::Permanent, true) == Ok::<
            DeleteAction,
            DeleteError,
        >(DeleteAction::RemoveDirectory) && deletion_plan(path, DeleteMode::Permanent, false)
            == Ok::<DeleteAction, DeleteError>(DeleteAction::RemoveFile),
{
}

/// The words for each reason.
pub proof fn law_refusals_say_why(reason: DeleteError)
    ensures
        reason == DeleteError::EmptyPath ==> reason.words() == "empty paths cannot be deleted"@,
        reason == DeleteError::FilesystemRoot ==> reason.words()
            == "filesystem roots cannot be deleted"@,
{
}

} // verus!
