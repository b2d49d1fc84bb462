//! Repository bootstrap decisions: the directory skeleton the store
//! requires, and when creating or using it must be refused. The
//! filesystem work itself happens outside the library; these functions
//! fix the layout names and the decisions.

use vstd::prelude::*;
use crate::object::StoreError;

verus! {

/// The contents of the default HEAD reference: an unborn branch named
/// `main`.
pub fn head_ref_content() -> (r: String)
    ensures
        r@ == "ref: refs/heads/main\n"@,
{
    "ref: refs/heads/main\n".to_owned()
}

/// The name of the objects directory under the repository root.
pub fn objects_dir_name() -> (r: String)
    ensures
        r@ == "objects"@,
{
    "objects".to_owned()
}

/// The name of the refs directory under the repository root.
pub fn refs_dir_name() -> (r: String)
    ensures
        r@ == "refs"@,
{
    "refs".to_owned()
}

/// Bootstrap decision: initializing a root that already exists is an
/// error, never a silent re-initialization.
pub fn init_decision(root_exists: bool) -> (r: Result<(), StoreError>)
    ensures
        r is Ok <==> !root_exists,
        root_exists ==> r == Err::<(), StoreError>(StoreError::AlreadyInitialized),
{
    if root_exists {
        Err(StoreError::AlreadyInitialized)
    } else {
        Ok(())
    }
}

/// Store-access decision: operations on a repository whose objects root
/// is missing are refused with `RepositoryNotInitialized`.
pub fn store_access_decision(objects_root_exists: bool) -> (r: Result<(), StoreError>)
    ensures
        r is Ok <==> objects_root_exists,
        !objects_root_exists ==> r == Err::<(), StoreError>(
            StoreError::RepositoryNotInitialized,
        ),
{
    if objects_root_exists {
        Ok(())
    } else {
        Err(StoreError::RepositoryNotInitialized)
    }
}

} // verus!
