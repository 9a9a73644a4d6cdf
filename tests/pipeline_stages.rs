use epub_optimizer::pipeline::{advance, bytes_saved, holds_workspace, is_epub_path, Stage};

#[test]
fn successful_run() {
    let mut s = Stage::Idle;
    let expected = [
        Stage::WorkspaceAcquired,
        Stage::Extracted,
        Stage::Optimized,
        Stage::Repacked,
        Stage::Replaced,
        Stage::Released,
    ];
    for e in expected.iter() {
        s = advance(s, true);
        assert_eq!(s, *e);
    }
}

#[test]
fn failure_goes_through_failed_to_released() {
    assert_eq!(advance(Stage::Idle, false), Stage::Released);
    assert_eq!(advance(Stage::Extracted, false), Stage::Failed);
    assert_eq!(advance(Stage::Repacked, false), Stage::Failed);
    assert_eq!(advance(Stage::Failed, true), Stage::Released);
    assert!(holds_workspace(Stage::Failed));
    assert!(holds_workspace(Stage::Replaced));
    assert!(!holds_workspace(Stage::Idle));
    assert!(!holds_workspace(Stage::Released));
}

#[test]
fn savings_may_be_negative() {
    assert_eq!(bytes_saved(1000, 600), 400);
    assert_eq!(bytes_saved(600, 1000), -400);
    assert_eq!(bytes_saved(u64::MAX, 0), u64::MAX as i128);
}

#[test]
fn epub_extension() {
    assert!(is_epub_path("book.epub"));
    assert!(is_epub_path("/x/y/.epub"));
    assert!(!is_epub_path("book.EPUB"));
    assert!(!is_epub_path("book.zip"));
    assert!(!is_epub_path("epub"));
}
