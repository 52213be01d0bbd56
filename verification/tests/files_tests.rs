use yoink::error::classify_io;
use yoink::error::Error;
use yoink::error::IoKind;
use yoink::files::filter_capture_files;
use yoink::files::is_capture_file;
use yoink::files::require_nonempty;
use yoink::panes::CapturePane;
use yoink::panes::CaptureSidebar;
use yoink::panes::EditorPane;
use yoink::panes::EditorSidebar;
use yoink::panes::Pane;
use yoink::panes::Sidebar;
use yoink::tool::source_dir;
use yoink::tool::source_path;

fn names(ns: &[&str]) -> Vec<String> {
    ns.iter().map(|s| s.to_string()).collect()
}

#[test]
fn capture_file_convention() {
    assert!(is_capture_file("_test.md"));
    assert!(is_capture_file("_.md"));
    assert!(!is_capture_file("test.md"));
    assert!(!is_capture_file("_test.txt"));
    assert!(!is_capture_file("_test"));
    assert!(!is_capture_file(""));
    assert!(!is_capture_file(".md"));
}

#[test]
fn filter_keeps_only_capture_files() {
    let listed = names(&["_a.md", "readme.txt", "_b.md", "_c.rs"]);
    let kept = filter_capture_files(&listed).expect("two capture files exist");
    assert_eq!(kept, names(&["_a.md", "_b.md"]));
}

#[test]
fn zero_matches_is_not_found() {
    let listed = names(&["readme.txt", "notes.md"]);
    match filter_capture_files(&listed) {
        Err(Error::FileNotFound) => {}
        other => panic!("zero matching entries must be an error, got {:?}", other),
    }
}

#[test]
fn empty_listing_is_not_found() {
    match require_nonempty(Vec::new()) {
        Err(Error::FileNotFound) => {}
        other => panic!("an empty listing must be an error, got {:?}", other),
    }
    let listed = names(&["anything"]);
    assert_eq!(require_nonempty(listed.clone()).expect("non-empty passes"), listed);
}

#[test]
fn source_paths() {
    assert_eq!(source_dir(), "/Users/tymalik/Docs/Git/markdown/");
    assert_eq!(
        source_path("_test.md".to_string()),
        "/Users/tymalik/Docs/Git/markdown/_test.md"
    );
}

#[test]
fn error_messages() {
    assert_eq!(Error::PermissionDenied.message(), "Permission Denied");
    assert_eq!(Error::FileNotFound.message(), "File Not Found");
    assert_eq!(Error::IoError(IoKind::InvalidData).message(), "IO Error: InvalidData");
    assert_eq!(Error::IoError(IoKind::Other).message(), "IO Error: Other");
}

#[test]
fn io_classification_promotes_two_kinds() {
    assert_eq!(classify_io(IoKind::PermissionDenied), Error::PermissionDenied);
    assert_eq!(classify_io(IoKind::NotFound), Error::FileNotFound);
    assert_eq!(classify_io(IoKind::InvalidData), Error::IoError(IoKind::InvalidData));
    assert_eq!(classify_io(IoKind::Interrupted), Error::IoError(IoKind::Interrupted));
    assert_eq!(classify_io(IoKind::UnexpectedEof), Error::IoError(IoKind::UnexpectedEof));
    assert_eq!(classify_io(IoKind::Other), Error::IoError(IoKind::Other));
}

#[test]
fn pane_states() {
    assert_eq!(CapturePane::new(), CapturePane);
    assert_eq!(CaptureSidebar::new(), CaptureSidebar);
    assert_eq!(Pane::new(), Pane);
    assert_eq!(Sidebar::new(), Sidebar);
    assert!(EditorPane::new().is_visible);
    assert!(EditorSidebar::new().is_visible);
    assert!(!EditorPane::default().is_visible);
}
