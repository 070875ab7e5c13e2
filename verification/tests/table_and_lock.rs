use wgman::utils::{cli_table, lock_file_name, lock_path, try_lock_path, Lock, LockError};

#[test]
fn cli_table_aligns_to_the_right() {
    let lines = cli_table(vec![
        vec!["Name", "Pubkey"],
        vec!["alice", "AAAA="],
        vec!["bo", "BBBBBBBBBB="],
    ]);
    assert_eq!(lines, vec![" Name      Pubkey", "alice       AAAA=", "   bo BBBBBBBBBB="]);
}

#[test]
fn cli_table_of_nothing() {
    assert!(cli_table(Vec::new()).is_empty());
    assert_eq!(cli_table(vec![vec![]]), vec![""]);
    assert_eq!(cli_table(vec![vec![], vec!["x"]]), vec!["", "x"]);
}

#[test]
fn cli_table_with_rows_of_different_length() {
    let lines = cli_table(vec![vec!["a"], vec!["bbb", "cc", "d"], vec!["ee", "f"]]);
    assert_eq!(lines, vec!["  a", "bbb cc d", " ee  f"]);
}

#[test]
fn cli_table_keeps_empty_cells() {
    let lines = cli_table(vec![vec!["", "x"], vec!["ab", ""]]);
    assert_eq!(lines, vec!["   x", "ab  "]);
}

#[test]
fn cli_table_measures_in_bytes() {
    let lines = cli_table(vec![vec!["\u{e9}"], vec!["abc"], vec!["z"]]);
    assert_eq!(lines, vec![" \u{e9}", "abc", "  z"]);
}

#[test]
fn lock_file_name_wraps_the_name() {
    assert_eq!(lock_file_name("wgman.conf"), ".wgman.conf.lck");
    assert_eq!(lock_file_name(""), "..lck");
}

#[test]
fn lock_path_lies_beside_the_file() {
    assert_eq!(lock_path("./wgman.conf"), "./.wgman.conf.lck");
    assert_eq!(lock_path("wgman.conf"), ".wgman.conf.lck");
    assert_eq!(lock_path("/etc/wireguard/wgman.conf"), "/etc/wireguard/.wgman.conf.lck");
}

#[test]
fn lock_path_is_the_same_for_the_same_path() {
    assert_eq!(lock_path("/srv/a/b.json"), lock_path("/srv/a/b.json"));
    assert_ne!(lock_path("/srv/a/b.json"), lock_path("/srv/a/c.json"));
}

#[test]
fn try_lock_path_wants_a_file_name() {
    assert_eq!(try_lock_path("./wgman.conf"), Some("./.wgman.conf.lck".to_string()));
    assert_eq!(try_lock_path("/"), None);
    assert_eq!(try_lock_path(""), None);
    assert_eq!(try_lock_path("conf/.."), None);
}

#[test]
fn acquire_without_lock_file_succeeds() {
    let lock = Lock::acquire("./.wgman.conf.lck".to_string(), None, 4242).unwrap();
    assert_eq!(lock.path(), "./.wgman.conf.lck");
    assert_eq!(lock.owner(), 4242);
    assert_eq!(lock.contents(), "4242");
    assert_eq!(lock.release(), "./.wgman.conf.lck");
}

#[test]
fn acquire_with_lock_file_names_the_holder() {
    let result = Lock::acquire("l".to_string(), Some("4242".to_string()), 7);
    assert_eq!(result, Err(LockError::LockExists(4242)));
    let result = Lock::acquire("l".to_string(), Some("+1".to_string()), 7);
    assert_eq!(result, Err(LockError::LockExists(1)));
    let result = Lock::acquire("l".to_string(), Some("4294967295".to_string()), 7);
    assert_eq!(result, Err(LockError::LockExists(u32::MAX)));
}

#[test]
fn acquire_with_malformed_lock_file_fails() {
    for text in ["", "pid", "4242\n", " 4242", "-1", "4294967296", "42.0"] {
        let result = Lock::acquire("l".to_string(), Some(text.to_string()), 7);
        assert_eq!(result, Err(LockError::MalformedLockExists));
    }
}

#[test]
fn lock_excludes_until_released() {
    let path = lock_path("./wgman.conf");
    let mut file: Option<String> = None;
    let first = Lock::acquire(path.clone(), file.clone(), 100).unwrap();
    file = Some(first.contents());
    let second = Lock::acquire(path.clone(), file.clone(), 200);
    assert_eq!(second, Err(LockError::LockExists(100)));
    let third = Lock::acquire(path.clone(), file.clone(), 100);
    assert_eq!(third, Err(LockError::LockExists(100)));
    assert_eq!(first.release(), path);
    file = None;
    let fourth = Lock::acquire(path.clone(), file, 200).unwrap();
    assert_eq!(fourth.owner(), 200);
    assert_eq!(fourth.contents(), "200");
}

#[test]
fn lock_error_messages() {
    assert_eq!(LockError::MalformedLockExists.to_string(), "lock exists, but it is malformed");
    assert_eq!(LockError::LockExists(4242).to_string(), "lock exists with process id: 4242");
    assert_eq!(LockError::LockExists(0).to_string(), "lock exists with process id: 0");
    assert_eq!(LockError::IOError("permission denied".to_string()).to_string(), "permission denied");
}
