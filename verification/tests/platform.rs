//! Names of platforms, projects and locks.
use tup::platform::init::{find_tup_dir, init_command, search_path, InitError};
use tup::platform::locks::{
    after_try, lock_normal, try_lock_normal, unlock_normal, LockAction, LockName, TryOutcome,
};
use tup::platform::names::{arch_name, path_sep, platform_name};

#[test]
fn test_platform_name() {
    for os in ["linux", "macos", "windows", "freebsd", "netbsd", "plan9"] {
        let name = platform_name(os);
        assert!(!name.is_empty());
        assert!(
            ["linux", "macosx", "win32", "freebsd", "netbsd", "unknown"].contains(&name),
            "unexpected platform: {name}"
        );
    }
    assert_eq!(platform_name("macos"), "macosx");
    assert_eq!(platform_name("windows"), "win32");
}

#[test]
fn test_arch_name() {
    for arch in ["x86_64", "aarch64", "powerpc", "none"] {
        let name = arch_name(arch);
        assert!(!name.is_empty());
    }
}

#[test]
fn test_path_sep() {
    assert_eq!(path_sep("windows"), '\\');
    assert_eq!(path_sep("linux"), '/');
}

#[test]
fn test_init_command() {
    let options = init_command("/p", false, false, false, false).unwrap();
    assert_eq!(options, Some("[db]\n\tsync = 0\n"));
}

#[test]
fn test_init_with_sync() {
    assert_eq!(init_command("/p", false, false, true, false).unwrap(), None);
}

#[test]
fn test_init_already_exists() {
    let result = init_command("/p", true, true, false, false);
    assert!(matches!(result, Err(InitError::AlreadyInitialized(_))));
}

#[test]
fn test_init_force() {
    let result = init_command("/p", true, true, false, true);
    assert!(result.is_err());
    match result {
        Err(InitError::Database(m)) => assert_eq!(m, "database already exists at /p/.tup/db"),
        _ => panic!("a database that is there is no error"),
    }
    assert!(init_command("/p", true, false, false, true).is_ok());
}

#[test]
fn test_find_tup_dir() {
    let dirs = search_path("/p/src/lib");
    assert_eq!(dirs, vec!["/p/src/lib", "/p/src", "/p", "/"]);
    assert_eq!(find_tup_dir("/p/src/lib", &[false, false, false, false]), None);
    assert_eq!(find_tup_dir("/p/src/lib", &[false, false, true, true]), Some("/p".to_string()));
    assert_eq!(find_tup_dir("/p", &[true, false]), Some("/p".to_string()));
}

#[test]
fn locks_are_taken_and_released_in_order() {
    assert_eq!(
        lock_normal(),
        (LockAction::Share(LockName::Shared), LockAction::Take(LockName::Object))
    );
    assert_eq!(
        unlock_normal(),
        (LockAction::Release(LockName::Object), LockAction::Release(LockName::Shared))
    );
    assert_eq!(
        try_lock_normal(),
        (LockAction::Share(LockName::Shared), LockAction::Try(LockName::Object))
    );
    assert_eq!(after_try(TryOutcome::Taken), None);
    assert_eq!(after_try(TryOutcome::Busy), Some(LockAction::Release(LockName::Shared)));
}
