use steed_os::environment::{getenv, setenv, temp_dir, unsetenv, EnvTable};
use steed_os::error::{OsError, EINVAL};

fn snapshot(t: &EnvTable) -> Vec<(Vec<u8>, Vec<u8>)> {
    let mut it = steed_os::environment::env(t);
    let mut out = Vec::new();
    while let Some(kv) = it.next() {
        out.push(kv);
    }
    out
}

#[test]
fn set_then_get() {
    let mut t = EnvTable::new();
    assert_eq!(setenv(&mut t, b"HOME", b"/root"), Ok(()));
    assert_eq!(getenv(&t, b"HOME"), Ok(Some(b"/root".to_vec())));
    assert_eq!(setenv(&mut t, b"HOME", b"/home/u"), Ok(()));
    assert_eq!(getenv(&t, b"HOME"), Ok(Some(b"/home/u".to_vec())));
    assert_eq!(setenv(&mut t, b"EMPTY", b""), Ok(()));
    assert_eq!(getenv(&t, b"EMPTY"), Ok(Some(Vec::new())));
}

#[test]
fn unset_then_get() {
    let mut t = EnvTable::new();
    setenv(&mut t, b"A", b"1").unwrap();
    setenv(&mut t, b"B", b"2").unwrap();
    assert_eq!(unsetenv(&mut t, b"A"), Ok(()));
    assert_eq!(getenv(&t, b"A"), Ok(None));
    assert_eq!(getenv(&t, b"B"), Ok(Some(b"2".to_vec())));
    assert_eq!(unsetenv(&mut t, b"A"), Ok(()));
    assert_eq!(getenv(&t, b"MISSING"), Ok(None));
}

#[test]
fn snapshot_keeps_order_and_agrees_with_get() {
    let mut t = EnvTable::new();
    setenv(&mut t, b"X", b"1").unwrap();
    setenv(&mut t, b"Y", b"2").unwrap();
    setenv(&mut t, b"Z", b"3").unwrap();
    setenv(&mut t, b"X", b"4").unwrap();
    unsetenv(&mut t, b"Y").unwrap();
    let s = snapshot(&t);
    assert_eq!(s, vec![(b"X".to_vec(), b"4".to_vec()), (b"Z".to_vec(), b"3".to_vec())]);
    for (k, v) in &s {
        assert_eq!(getenv(&t, k), Ok(Some(v.clone())));
    }
}

#[test]
fn snapshot_is_a_copy() {
    let mut t = EnvTable::new();
    setenv(&mut t, b"K", b"v").unwrap();
    let mut it = steed_os::environment::env(&t);
    assert_eq!(it.size_hint(), (1, Some(1)));
    setenv(&mut t, b"K", b"w").unwrap();
    setenv(&mut t, b"L", b"x").unwrap();
    assert_eq!(it.next(), Some((b"K".to_vec(), b"v".to_vec())));
    assert_eq!(it.next(), None);
    assert_eq!(it.size_hint(), (0, Some(0)));
}

#[test]
fn terminator_in_key_or_value_is_an_encoding_error() {
    let mut t = EnvTable::new();
    setenv(&mut t, b"A", b"1").unwrap();
    assert_eq!(getenv(&t, b"A\0"), Err(OsError::Encoding));
    assert_eq!(getenv(&t, b"\0"), Err(OsError::Encoding));
    assert_eq!(setenv(&mut t, b"B\0C", b"1"), Err(OsError::Encoding));
    assert_eq!(setenv(&mut t, b"B", b"1\0"), Err(OsError::Encoding));
    assert_eq!(unsetenv(&mut t, b"A\0"), Err(OsError::Encoding));
    assert_eq!(snapshot(&t), vec![(b"A".to_vec(), b"1".to_vec())]);
}

#[test]
fn invalid_names_are_refused() {
    let mut t = EnvTable::new();
    assert_eq!(setenv(&mut t, b"", b"1"), Err(OsError::Os(EINVAL)));
    assert_eq!(setenv(&mut t, b"A=B", b"1"), Err(OsError::Os(EINVAL)));
    assert_eq!(unsetenv(&mut t, b""), Err(OsError::Os(EINVAL)));
    assert_eq!(unsetenv(&mut t, b"="), Err(OsError::Os(EINVAL)));
    assert_eq!(EINVAL, 22);
    assert!(snapshot(&t).is_empty());
}

#[test]
fn temp_dir_prefers_tmpdir() {
    let mut t = EnvTable::new();
    assert_eq!(temp_dir(&t), b"/tmp".to_vec());
    setenv(&mut t, b"TMPDIR", b"/var/tmp").unwrap();
    assert_eq!(temp_dir(&t), b"/var/tmp".to_vec());
    unsetenv(&mut t, b"TMPDIR").unwrap();
    assert_eq!(temp_dir(&t), b"/tmp".to_vec());
}
