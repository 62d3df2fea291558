//! Permissions of users on files.

use crate::text::same_text;
use std::str::FromStr;
use vstd::prelude::*;

verus! {

/// What a user asks to do with a file.
#[derive(Debug, PartialEq, Eq, Copy, Clone, Structural)]
pub enum Permission {
    Read,
    Write,
    Execute,
}

/// Why a request was turned down.
#[derive(Debug, PartialEq, Eq, Copy, Clone, Structural)]
pub enum PermissionError {
    /// No user was named.
    InvalidUser,
    /// No path was given.
    EmptyPath,
    /// The path is not absolute.
    RelativePath,
    /// Nothing exists at the path.
    MissingPath,
    /// The kind of access is not granted.
    Insufficient,
}

/// The permission that a word names, if it names one.
pub open spec fn permission_named(word: Seq<char>) -> Option<Permission> {
    if word == "Read"@ {
        Some(Permission::Read)
    } else if word == "Write"@ {
        Some(Permission::Write)
    } else if word == "Execute"@ {
        Some(Permission::Execute)
    } else {
        None
    }
}

/// What a request is answered with, given what the file system says of the
/// path. The checks come in this order: the user, the path, the permission.
pub open spec fn permission_verdict(
    user: Seq<char>,
    file_path: Seq<char>,
    permission: Permission,
    is_absolute: bool,
    exists: bool,
) -> Result<(), PermissionError> {
    if user.len() == 0 {
        Err(PermissionError::InvalidUser)
    } else if file_path.len() == 0 {
        Err(PermissionError::EmptyPath)
    } else if !is_absolute {
        Err(PermissionError::RelativePath)
    } else if !exists {
        Err(PermissionError::MissingPath)
    } else if permission != Permission::Write {
        Err(PermissionError::Insufficient)
    } else {
        Ok(())
    }
}

/// What reading a word as a permission answers with: the permission that
/// the word names, or the refusal of a word that names none.
pub open spec fn permission_read(word: Seq<char>) -> Result<Permission, ()> {
    match permission_named(word) {
        Some(p) => Ok(p),
        None => Err(()),
    }
}

impl Permission {
    /// Reads a permission from its name: `Read`, `Write` or `Execute`.
    pub fn parse(input: &str) -> (r: Option<Permission>)
        ensures
            r == permission_named(input@),
    {
        if same_text(input, "Read") {
            Some(Permission::Read)
        } else if same_text(input, "Write") {
            Some(Permission::Write)
        } else if same_text(input, "Execute") {
            Some(Permission::Execute)
        } else {
            None
        }
    }
}

impl FromStr for Permission {
    type Err = ();

    /// Reads a permission from its name; any other word is refused.
    fn from_str(input: &str) -> (r: Result<Permission, ()>)
        ensures
            r == permission_read(input@),
    {
        match Permission::parse(input) {
            Some(p) => Ok(p),
            None => Err(()),
        }
    }
}

/// Decides whether `user` may use the file at `file_path` in the way
/// `permission` says. `is_absolute` and `exists` are what the file system
/// says of the path. Only writing is granted.
pub fn verify_permissions(
    user: &str,
    file_path: &str,
    permission: Permission,
    is_absolute: bool,
    exists: bool,
) -> (r: Result<(), PermissionError>)
    ensures
        r == permission_verdict(user@, file_path@, permission, is_absolute, exists),
{
    if user.is_empty() {
        return Err(PermissionError::InvalidUser);
    }
    if file_path.is_empty() {
        return Err(PermissionError::EmptyPath);
    }
    if !is_absolute {
        return Err(PermissionError::RelativePath);
    }
    if !exists {
        return Err(PermissionError::MissingPath);
    }
    match permission {
        Permission::Write => Ok(()),
        _ => Err(PermissionError::Insufficient),
    }
}

} // verus!
