use deoxit::filter::{CargoDirFilter, DirFilter};
use deoxit::listing::{EntryInfo, EntryKind};

fn entry(name: &str, kind: EntryKind) -> EntryInfo {
    EntryInfo::new(String::from(name), kind)
}

#[test]
fn accepts_manifest_and_build_dir() {
    let listing = vec![
        entry("src", EntryKind::Directory),
        entry("Cargo.toml", EntryKind::File),
        entry("target", EntryKind::Directory),
    ];
    assert!(CargoDirFilter.accept(&listing));
}

#[test]
fn rejects_without_manifest() {
    let listing = vec![entry("target", EntryKind::Directory)];
    assert!(!CargoDirFilter.accept(&listing));
}

#[test]
fn rejects_without_build_dir() {
    let listing = vec![entry("Cargo.toml", EntryKind::File)];
    assert!(!CargoDirFilter.accept(&listing));
}

#[test]
fn rejects_symlinked_build_dir() {
    // a directory-typed symlink is never treated as a directory
    let listing = vec![
        entry("Cargo.toml", EntryKind::File),
        entry("target", EntryKind::Symlink),
    ];
    assert!(!CargoDirFilter.accept(&listing));
}

#[test]
fn rejects_manifest_of_wrong_kind() {
    let listing = vec![
        entry("Cargo.toml", EntryKind::Directory),
        entry("target", EntryKind::Directory),
    ];
    assert!(!CargoDirFilter.accept(&listing));
}

#[test]
fn rejects_empty_listing() {
    assert!(!CargoDirFilter.accept(&vec![]));
}
