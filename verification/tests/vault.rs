use std::path::PathBuf;

use obsidian_hugo::lexer::{Lexer, Token};
use obsidian_hugo::vault::{normalize_name, Vault};

fn tokens(text: &str) -> Vec<Token> {
    Lexer::new(text.to_string()).tokens().unwrap()
}

#[test]
fn names_are_normalized() {
    assert_eq!(normalize_name("My Note".to_string()), "my-note");
    assert_eq!(normalize_name("Folder/Sub/My Note".to_string()), "my-note");
    assert_eq!(normalize_name("a/".to_string()), "");
    assert_eq!(normalize_name("ÜBER".to_string()), "über");
    assert_eq!(normalize_name("".to_string()), "");
}

#[test]
fn adding_a_note_splits_off_its_front_matter() {
    let mut vault = Vault::from_directory(&PathBuf::from("vault")).unwrap();
    vault.add_note(PathBuf::from("A Note.md"), "A Note".to_string(), tokens("---\ntitle: t\n---\nbody"));
    let notes = vault.notes();
    assert_eq!(notes.len(), 1);
    assert_eq!(notes[0].0, "a-note");
    let note = &notes[0].1;
    assert_eq!(note.name(), "A Note");
    assert_eq!(note.path(), &PathBuf::from("A Note.md"));
    assert_eq!(note.tokens(), &vec![Token::Text("\n".to_string()), Token::Text("body".to_string())]);
    let front = note.frontmatter_text();
    assert!(front.contains("title: t"));
    assert!(front.contains("type: note"));
    assert!(front.ends_with("\n---\n\n"));
}

#[test]
fn adding_a_note_twice_replaces_it() {
    let mut vault = Vault::from_directory(&PathBuf::from("v")).unwrap();
    vault.add_note(PathBuf::from("a.md"), "a".to_string(), tokens("one"));
    vault.add_note(PathBuf::from("b.md"), "b".to_string(), tokens("two"));
    vault.add_note(PathBuf::from("a.md"), "A".to_string(), tokens("three"));
    let notes = vault.notes();
    assert_eq!(notes.len(), 2);
    assert_eq!(notes[0].0, "a");
    assert_eq!(notes[0].1.name(), "A");
    assert_eq!(notes[1].0, "b");
}

#[test]
fn attachments_are_kept_by_normalized_name() {
    let mut vault = Vault::from_directory(&PathBuf::from("v")).unwrap();
    vault.add_attachment("My Pic.png".to_string(), PathBuf::from("img/My Pic.png"));
    assert_eq!(vault.attachments().len(), 1);
    assert_eq!(vault.attachments()[0].0, "my-pic.png");
    assert_eq!(vault.vault_path(), &PathBuf::from("v"));
}

#[test]
fn index_records_tags_links_and_backlinks() {
    let mut vault = Vault::from_directory(&PathBuf::from("v")).unwrap();
    vault.add_note(PathBuf::from("a.md"), "A".to_string(), tokens("#x [[B]] [[Missing]] [[]]"));
    vault.add_note(PathBuf::from("b.md"), "B".to_string(), tokens(""));
    vault.index();
    let notes = vault.notes();
    assert_eq!(notes.len(), 2);
    let a = &notes[0].1;
    let b = &notes[1].1;
    assert_eq!(a.tags(), &vec!["x".to_string()]);
    assert_eq!(a.links(), &vec!["b".to_string()]);
    assert!(a.backlinks().is_empty());
    assert_eq!(b.backlinks(), &vec!["a".to_string()]);
    assert!(b.links().is_empty());
}

#[test]
fn backlinks_do_not_depend_on_the_order_of_the_notes() {
    for order in [["a", "b"], ["b", "a"]] {
        let mut vault = Vault::from_directory(&PathBuf::from("v")).unwrap();
        for n in order {
            let text = if n == "a" { "[[b]] [[a]]" } else { "text" };
            vault.add_note(PathBuf::from(format!("{}.md", n)), n.to_string(), tokens(text));
        }
        vault.index();
        let notes = vault.notes();
        let a = &notes.iter().find(|(k, _)| k == "a").unwrap().1;
        let b = &notes.iter().find(|(k, _)| k == "b").unwrap().1;
        assert_eq!(a.links(), &vec!["b".to_string(), "a".to_string()]);
        assert_eq!(a.backlinks(), &vec!["a".to_string()]);
        assert_eq!(b.backlinks(), &vec!["a".to_string()]);
        assert!(b.links().is_empty());
    }
}

#[test]
fn every_link_after_indexing_names_a_note() {
    let mut vault = Vault::from_directory(&PathBuf::from("v")).unwrap();
    vault.add_note(PathBuf::from("a.md"), "A".to_string(), tokens("[[B]] [[C]] [[Nowhere]]"));
    vault.add_note(PathBuf::from("b.md"), "B".to_string(), tokens("[[A]] #t"));
    vault.add_note(PathBuf::from("c.md"), "C".to_string(), tokens(""));
    vault.index();
    vault.add_note(PathBuf::from("d.md"), "D".to_string(), tokens("[[A]]"));
    let notes = vault.notes();
    let keys: Vec<&String> = notes.iter().map(|(k, _)| k).collect();
    let mut seen = 0;
    for (_, note) in notes.iter() {
        for l in note.links().iter().chain(note.backlinks().iter()) {
            assert!(keys.contains(&l));
            seen += 1;
        }
    }
    assert!(seen > 0);
}

#[test]
fn indexing_keeps_the_names_of_the_notes() {
    let mut vault = Vault::from_directory(&PathBuf::from("v")).unwrap();
    vault.add_note(PathBuf::from("x.md"), "X Y".to_string(), tokens("#a [[z]]"));
    vault.add_note(PathBuf::from("z.md"), "Z".to_string(), tokens("[[X Y]]"));
    let before: Vec<String> = vault.notes().iter().map(|(k, _)| k.clone()).collect();
    vault.index();
    let after: Vec<String> = vault.notes().iter().map(|(k, _)| k.clone()).collect();
    assert_eq!(before, vec!["x-y".to_string(), "z".to_string()]);
    assert_eq!(before, after);
}

#[test]
fn a_note_linking_to_itself_keeps_its_backlink() {
    let mut vault = Vault::from_directory(&PathBuf::from("v")).unwrap();
    vault.add_note(PathBuf::from("s.md"), "S".to_string(), tokens("#x [[S]]"));
    vault.index();
    let s = &vault.notes()[0].1;
    assert_eq!(s.links(), &vec!["s".to_string()]);
    assert_eq!(s.backlinks(), &vec!["s".to_string()]);
    assert_eq!(s.tags(), &vec!["x".to_string()]);
}
