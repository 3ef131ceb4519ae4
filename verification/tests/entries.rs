use obsidian_hugo::entries::{file_kind, skips_dir, FileKind};

#[test]
fn tool_directories_are_skipped() {
    assert!(skips_dir(Some(".git")));
    assert!(skips_dir(Some(".obsidian")));
    assert!(skips_dir(Some(".trash")));
    assert!(skips_dir(Some("Excalidraw")));
    assert!(!skips_dir(Some("notes")));
    assert!(!skips_dir(Some(".gitignore")));
    assert!(!skips_dir(None));
}

#[test]
fn markdown_files_are_notes() {
    assert_eq!(file_kind(Some("md")), FileKind::Note);
    assert_eq!(file_kind(Some("png")), FileKind::Attachment);
    assert_eq!(file_kind(Some("MD")), FileKind::Attachment);
    assert_eq!(file_kind(None), FileKind::Attachment);
}
