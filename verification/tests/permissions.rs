use dvcs::permissions::{verify_permissions, Permission, PermissionError};
use std::str::FromStr;

#[test]
fn test_valid_user_valid_path_invalid_permission() {
    let _user = "valid_user";
    let _file_path = "/Users/adrian/Desktop"; // Adjust this to a valid path
    let permission_input = "InvalidPermission";

    let permission = Permission::from_str(permission_input);
    assert!(permission.is_err());
}

#[test]
fn permission_names_are_read() {
    assert_eq!(Permission::from_str("Read"), Ok(Permission::Read));
    assert_eq!(Permission::from_str("Write"), Ok(Permission::Write));
    assert_eq!(Permission::from_str("Execute"), Ok(Permission::Execute));
    assert_eq!(Permission::from_str("read"), Err(()));
}

#[test]
fn test_invalid_user_valid_path_write_permission() {
    let result = verify_permissions("", "/Users/adrian/Desktop", Permission::Write, true, true);
    assert_eq!(result, Err(PermissionError::InvalidUser));
}

#[test]
fn test_valid_user_invalid_path_execute_permission() {
    let result = verify_permissions("valid_user", "", Permission::Execute, false, false);
    assert_eq!(result, Err(PermissionError::EmptyPath));
}

#[test]
fn test_insufficient_permission_read() {
    let result = verify_permissions("valid_user", "/Users/adrian/Desktop", Permission::Read, true, true);
    assert_eq!(result, Err(PermissionError::Insufficient));
}

#[test]
fn test_valid_user_valid_path_execute_permission() {
    let result = verify_permissions("valid_user", "/Users/adrian/Desktop", Permission::Execute, true, true);
    assert_eq!(result, Err(PermissionError::Insufficient));
}

#[test]
fn test_valid_user_valid_path_write_permission() {
    assert!(matches!(verify_permissions("valid_user", "/Users/adrian/Desktop", Permission::Write, true, true), Ok(())));
}

#[test]
fn relative_and_missing_paths_are_turned_down() {
    assert_eq!(verify_permissions("u", "rel/path", Permission::Write, false, true), Err(PermissionError::RelativePath));
    assert_eq!(verify_permissions("u", "/nowhere", Permission::Write, true, false), Err(PermissionError::MissingPath));
}
