#![allow(non_snake_case)]

use backrub::MultipleIoErrors;
use std::io;
use std::path;

#[test]
fn empty_MultipleIOErrors() {
    let instance = MultipleIoErrors::new();
    assert!(instance.is_empty());
}

#[test]
fn filled_MultipleIOErrors() {
    let mut instance = MultipleIoErrors::new();
    instance.add(
        "/a/path",
        io::Error::new(io::ErrorKind::InvalidInput, "a error message"),
    );
    instance.add(
        path::PathBuf::from("/another/path"),
        io::Error::new(io::ErrorKind::InvalidInput, "another error message"),
    );
    assert_eq!(instance.len(), 2);
}

#[test]
fn errors_are_kept_in_order() {
    let mut instance = MultipleIoErrors::new();
    instance.add("/first", io::Error::new(io::ErrorKind::NotFound, "gone"));
    instance.add("/second", io::Error::new(io::ErrorKind::PermissionDenied, "locked"));
    assert!(!instance.is_empty());
    let listed: Vec<(String, io::ErrorKind)> = instance
        .iter()
        .map(|(p, e)| (p.display().to_string(), e.kind()))
        .collect();
    assert_eq!(
        listed,
        vec![
            (String::from("/first"), io::ErrorKind::NotFound),
            (String::from("/second"), io::ErrorKind::PermissionDenied),
        ]
    );
}
