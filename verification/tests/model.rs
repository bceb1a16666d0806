use rdirstat::model::DirEntry;
use rdirstat::path::FsPath;
use rdirstat::scan::ScanState;

fn path(text: &str) -> FsPath {
    FsPath::from_bytes(&text.as_bytes().to_vec())
}

fn make_file(name: &str, size: u64) -> DirEntry {
    DirEntry {
        name: name.to_string(),
        path: path(&format!("/test/{name}")),
        is_dir: false,
        file_size: size,
        is_parent: false,
    }
}

fn make_dir(name: &str) -> DirEntry {
    DirEntry {
        name: name.to_string(),
        path: path(&format!("/test/{name}")),
        is_dir: true,
        file_size: 0,
        is_parent: false,
    }
}

fn make_parent() -> DirEntry {
    DirEntry {
        name: "..".to_string(),
        path: path("/test"),
        is_dir: true,
        file_size: 0,
        is_parent: true,
    }
}

#[test]
fn current_size_file() {
    let state = ScanState::new();
    let entry = make_file("a.txt", 1234);
    assert_eq!(entry.current_size(&state), 1234);
}

#[test]
fn current_size_dir_no_data() {
    let state = ScanState::new();
    let entry = make_dir("sub");
    assert_eq!(entry.current_size(&state), 0);
}

#[test]
fn current_size_dir_with_data() {
    let mut state = ScanState::new();
    state.dir_sizes.insert(path("/test/sub"), 5000);
    let entry = make_dir("sub");
    assert_eq!(entry.current_size(&state), 5000);
}

#[test]
fn is_scanning_file_always_false() {
    let mut state = ScanState::new();
    state.scanning = true;
    let entry = make_file("a.txt", 100);
    assert!(!entry.is_scanning(&state));
}

#[test]
fn is_scanning_dir_not_scanning() {
    let state = ScanState::new();
    let entry = make_dir("sub");
    assert!(!entry.is_scanning(&state));
}

#[test]
fn is_scanning_dir_scanning_not_completed() {
    let mut state = ScanState::new();
    state.scanning = true;
    let entry = make_dir("sub");
    assert!(entry.is_scanning(&state));
}

#[test]
fn is_scanning_dir_scanning_completed() {
    let mut state = ScanState::new();
    state.scanning = true;
    state.completed.insert(path("/test/sub"), ());
    let entry = make_dir("sub");
    assert!(!entry.is_scanning(&state));
}

#[test]
fn parent_entry() {
    let state = ScanState::new();
    let entry = make_parent();
    assert!(entry.is_parent);
    assert!(entry.is_dir);
    assert_eq!(entry.current_size(&state), 0);
}

#[test]
fn parent_entry_hides_the_parents_size() {
    let mut state = ScanState::new();
    state.dir_sizes.insert(path("/test"), 10_000);
    assert_eq!(make_parent().current_size(&state), 0);
}

#[test]
fn the_way_up_is_never_being_scanned() {
    let mut state = ScanState::new();
    state.scanning = true;
    assert!(!make_parent().is_scanning(&state));
}
