//! Which entries of a vault's directory tree are read, and as what.

use vstd::prelude::*;

verus! {

/// The directories that are not part of the notes: Git's, Obsidian's, the trash and
/// Excalidraw's drawings.
pub open spec fn skipped_dir(name: Seq<char>) -> bool {
    name == ".git"@ || name == ".obsidian"@ || name == ".trash"@ || name == "Excalidraw"@
}

/// Whether two strings hold the same characters.
fn same_text(a: &str, b: &str) -> (r: bool)
    ensures
        r == (a@ == b@),
{
    a.to_owned() == b.to_owned()
}

/// Whether the directory named `name` (its last path component, when it has one that
/// is valid Unicode) is left out of the vault.
pub fn skips_dir(name: Option<&str>) -> (b: bool)
    ensures
        b == (name matches Some(n) && skipped_dir(n@)),
{
    match name {
        Some(n) => same_text(n, ".git") || same_text(n, ".obsidian") || same_text(n, ".trash")
            || same_text(n, "Excalidraw"),
        None => false,
    }
}

/// What a file of the vault is read as.
#[derive(Debug, Clone, Copy, PartialEq, Eq)]
pub enum FileKind {
    /// A Markdown note.
    Note,
    /// Anything else, copied as it is.
    Attachment,
}

/// The kind of a file with the extension `extension` (when it has one that is valid
/// Unicode): `md` files are notes, all others attachments.
pub fn file_kind(extension: Option<&str>) -> (k: FileKind)
    ensures
        k == (if extension matches Some(e) && e@ == "md"@ {
            FileKind::Note
        } else {
            FileKind::Attachment
        }),
{
    match extension {
        Some(e) => if same_text(e, "md") {
            FileKind::Note
        } else {
            FileKind::Attachment
        },
        None => FileKind::Attachment,
    }
}

} // verus!
