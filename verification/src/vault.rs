//! A vault: the notes of an Obsidian directory, keyed by normalized name, and the
//! links between them.

use vstd::prelude::*;
use std::path::PathBuf;
use yaml_rust::Yaml;
use crate::lexer::{Token, TokenV, tokens_view, clone_tokens};
use crate::text::{self, push_char};
use crate::frontmatter::{self, yaml_clone};

verus! {

#[verifier::external_type_specification]
#[verifier::external_body]
pub struct ExPathBuf(PathBuf);

/// `PathBuf::clone`: the copy equals the path it was made from.
#[verifier::external_body]
fn path_clone(p: &PathBuf) -> (r: PathBuf)
    ensures
        r == *p,
{
    p.clone()
}

/// The position of the last `/` of `s` at or before `i`, or -1 when there is none.
pub open spec fn last_slash_from(s: Seq<char>, i: int) -> int
    decreases i + 1,
{
    if i < 0 {
        -1
    } else if s[i] == '/' {
        i
    } else {
        last_slash_from(s, i - 1)
    }
}

/// The name under which a note is kept: its file name, what follows the last `/` if
/// there is one, with spaces turned into `-` and every other character lowered (its
/// first lower-case character).
pub open spec fn normalized(name: Seq<char>) -> Seq<char> {
    let k = last_slash_from(name, name.len() - 1);
    let base = name.subrange(k + 1, name.len() as int);
    base.map_values(|c: char| if c == ' ' { '-' } else { text::lower_first(c) })
}

/// Where the last `/` at or before `i` can lie.
proof fn lemma_last_slash(s: Seq<char>, i: int)
    requires
        -1 <= i < s.len(),
    ensures
        -1 <= last_slash_from(s, i) <= i,
    decreases i + 1,
{
    if i >= 0 && s[i] != '/' {
        lemma_last_slash(s, i - 1);
    }
}

/// Normalizes a note or attachment name; see `normalized`.
pub fn normalize_name(name: String) -> (r: String)
    ensures
        r@ == normalized(name@),
{
    let cs = text::chars_of(name.as_str());
    let ghost s = name@;
    let ghost last = last_slash_from(s, s.len() - 1);
    proof {
        lemma_last_slash(s, s.len() - 1);
    }
    let mut i: usize = cs.len();
    loop
        invariant_except_break
            cs@ == s,
            i <= s.len(),
            last == last_slash_from(s, s.len() - 1),
            last_slash_from(s, i - 1) == last,
        ensures
            i <= s.len(),
            i == last + 1,
        decreases i,
    {
        if i == 0 {
            break;
        }
        if cs[i - 1] == '/' {
            break;
        }
        i = i - 1;
    }
    let start = i;
    let ghost base = s.subrange(start as int, s.len() as int);
    let mut r = String::new();
    let mut i: usize = start;
    while i < cs.len()
        invariant
            cs@ == s,
            start <= i <= s.len(),
            base == s.subrange(start as int, s.len() as int),
            r@ == base.take(i - start).map_values(|c: char| if c == ' ' { '-' } else { text::lower_first(c) }),
        decreases cs.len() - i,
    {
        let c = cs[i];
        let d = if c == ' ' {
            '-'
        } else {
            text::char_lower_first(c)
        };
        push_char(&mut r, d);
        i = i + 1;
        assert(base.take(i - start) =~= base.take(i - 1 - start).push(c));
        assert(r@ =~= base.take(i - start).map_values(
            |c: char| if c == ' ' { '-' } else { text::lower_first(c) },
        ));
    }
    assert(base.take(s.len() - start) =~= base);
    r
}


/// A note of the vault.
#[derive(Debug)]
pub struct Note {
    pub(crate) path: PathBuf,  // Path within vault
    pub(crate) name: String,
    pub(crate) tokens: Vec<Token>,
    pub(crate) frontmatter: Yaml,
    pub(crate) tags: Vec<String>,
    pub(crate) backlinks: Vec<String>,
    pub(crate) links: Vec<String>,
}

/// The value of a note.
pub struct NoteV {
    pub path: PathBuf,
    pub name: Seq<char>,
    pub tokens: Seq<TokenV>,
    pub frontmatter: Yaml,
    pub tags: Seq<Seq<char>>,
    pub backlinks: Seq<Seq<char>>,
    pub links: Seq<Seq<char>>,
}

/// The text a converted note starts with: the note's front matter with its tags,
/// backlinks and links added as lists, emitted as YAML, then a closing `---` line and
/// an empty line.
pub open spec fn frontmatter_text_of(n: NoteV) -> Seq<char> {
    let y1 = frontmatter::yaml_with_list(n.frontmatter, "tags"@, n.tags);
    let y2 = frontmatter::yaml_with_list(y1, "backlinks"@, n.backlinks);
    let y3 = frontmatter::yaml_with_list(y2, "links"@, n.links);
    frontmatter::yaml_emitted(y3) + "\n---\n\n"@
}

/// The characters of each string.
pub open spec fn strings_view(s: Seq<String>) -> Seq<Seq<char>> {
    s.map_values(|x: String| x@)
}

impl View for Note {
    type V = NoteV;

    closed spec fn view(&self) -> NoteV {
        NoteV {
            path: self.path,
            name: self.name@,
            tokens: tokens_view(self.tokens@),
            frontmatter: self.frontmatter,
            tags: strings_view(self.tags@),
            backlinks: strings_view(self.backlinks@),
            links: strings_view(self.links@),
        }
    }
}

fn clone_strings(v: &Vec<String>) -> (r: Vec<String>)
    ensures
        strings_view(r@) == strings_view(v@),
{
    let mut r: Vec<String> = Vec::new();
    let mut i: usize = 0;
    while i < v.len()
        invariant
            i <= v@.len(),
            strings_view(r@) == strings_view(v@.take(i as int)),
        decreases v@.len() - i,
    {
        let ghost before = r@;
        let x = v[i].clone();
        r.push(x);
        assert(strings_view(r@) =~= strings_view(before).push(x@));
        assert(v@.take(i + 1) =~= v@.take(i as int).push(v@[i as int]));
        assert(strings_view(v@.take(i + 1)) =~= strings_view(v@.take(i as int)).push(v@[i as int]@));
        i = i + 1;
    }
    assert(v@.take(v@.len() as int) =~= v@);
    r
}

impl Note {
    /// Where the note lies within the vault.
    pub fn path(&self) -> (p: &PathBuf)
        ensures
            *p == self@.path,
    {
        &self.path
    }

    /// The tokens of the note's body.
    pub fn tokens(&self) -> (t: &Vec<Token>)
        ensures
            tokens_view(t@) == self@.tokens,
    {
        &self.tokens
    }

    /// The note's name: the stem of its file name.
    pub fn name(&self) -> (n: &String)
        ensures
            n@ == self@.name,
    {
        &self.name
    }

    /// The note's front matter.
    pub fn frontmatter(&self) -> (f: &Yaml)
        ensures
            *f == self@.frontmatter,
    {
        &self.frontmatter
    }

    /// The tags found in the note.
    pub fn tags(&self) -> (t: &Vec<String>)
        ensures
            strings_view(t@) == self@.tags,
    {
        &self.tags
    }

    /// The normalized names of the notes it links to.
    pub fn links(&self) -> (l: &Vec<String>)
        ensures
            strings_view(l@) == self@.links,
    {
        &self.links
    }

    /// The normalized names of the notes that link to it.
    pub fn backlinks(&self) -> (b: &Vec<String>)
        ensures
            strings_view(b@) == self@.backlinks,
    {
        &self.backlinks
    }

    /// The front matter part of the converted note; see `frontmatter_text_of`.
    pub fn frontmatter_text(&self) -> (s: String)
        requires
            frontmatter::yaml_is_hash(self@.frontmatter),
        ensures
            s@ == frontmatter_text_of(self@),
    {
        let mut frontmatter = yaml_clone(&self.frontmatter);
        // Tags
        frontmatter::yaml_insert_list(&mut frontmatter, "tags", &self.tags);
        // Backlinks
        frontmatter::yaml_insert_list(&mut frontmatter, "backlinks", &self.backlinks);
        // Links
        frontmatter::yaml_insert_list(&mut frontmatter, "links", &self.links);
        // The emitter already starts the text with a "---" line.
        let mut out = frontmatter::yaml_emit(&frontmatter);
        out.append("\n---\n\n");
        out
    }
}

impl Clone for Note {
    fn clone(&self) -> (r: Self)
        ensures
            r@ == self@,
    {
        Note {
            path: path_clone(&self.path),
            name: self.name.clone(),
            tokens: clone_tokens(&self.tokens),
            frontmatter: yaml_clone(&self.frontmatter),
            tags: clone_strings(&self.tags),
            backlinks: clone_strings(&self.backlinks),
            links: clone_strings(&self.links),
        }
    }
}

/// Notes by normalized name, in the order they were first added.
pub type NoteMapV = Seq<(Seq<char>, NoteV)>;

/// The position of the first entry from `i` on whose key is `k`, or the length of `m`.
pub open spec fn key_index_from<V>(m: Seq<(Seq<char>, V)>, k: Seq<char>, i: int) -> int
    decreases m.len() - i,
{
    if i >= m.len() || m[i].0 == k {
        i
    } else {
        key_index_from(m, k, i + 1)
    }
}

/// The position of the key `k` in `m`, or the length of `m` when it is absent.
pub open spec fn key_index<V>(m: Seq<(Seq<char>, V)>, k: Seq<char>) -> int {
    key_index_from(m, k, 0)
}

/// What a key search finds: no `k` before the result, `k` at it unless it is the end.
pub proof fn lemma_key_index_from<V>(m: Seq<(Seq<char>, V)>, k: Seq<char>, i: int)
    requires
        0 <= i <= m.len(),
    ensures
        i <= key_index_from(m, k, i) <= m.len(),
        forall|j: int| i <= j < key_index_from(m, k, i) ==> #[trigger] m[j].0 != k,
        key_index_from(m, k, i) < m.len() ==> m[key_index_from(m, k, i)].0 == k,
    decreases m.len() - i,
{
    if i < m.len() && m[i].0 != k {
        lemma_key_index_from(m, k, i + 1);
    }
}

/// No key occurs twice.
pub open spec fn keys_distinct<V>(m: Seq<(Seq<char>, V)>) -> bool {
    forall|i: int, j: int| 0 <= i < j < m.len() ==> m[i].0 != m[j].0
}

/// `m` with `k` mapped to `v`: the entry of `k` replaced in place, or added at the end.
pub open spec fn map_insert<V>(m: Seq<(Seq<char>, V)>, k: Seq<char>, v: V) -> Seq<(Seq<char>, V)> {
    let i = key_index(m, k);
    if i < m.len() {
        m.update(i, (k, v))
    } else {
        m.push((k, v))
    }
}


/// Inserting under a key keeps the keys distinct.
pub proof fn lemma_insert_distinct<V>(m: Seq<(Seq<char>, V)>, k: Seq<char>, v: V)
    requires
        keys_distinct(m),
    ensures
        keys_distinct(map_insert(m, k, v)),
{
    lemma_key_index_from(m, k, 0);
}

/// The vault: notes and attachments by normalized name, and where the vault lies.
#[derive(Debug)]
pub struct Vault {
    // Maps normalized note names to notes
    pub(crate) notes: Vec<(String, Note)>,
    pub(crate) attachments: Vec<(String, PathBuf)>,
    pub(crate) vault_path: PathBuf,
}

/// The value of a vault.
pub struct VaultV {
    pub notes: NoteMapV,
    pub attachments: Seq<(Seq<char>, PathBuf)>,
    pub vault_path: PathBuf,
}

/// The values of the note entries.
pub open spec fn notes_view(v: Seq<(String, Note)>) -> NoteMapV {
    v.map_values(|e: (String, Note)| (e.0@, e.1@))
}

/// The values of the attachment entries.
pub open spec fn attachments_view(v: Seq<(String, PathBuf)>) -> Seq<(Seq<char>, PathBuf)> {
    v.map_values(|e: (String, PathBuf)| (e.0@, e.1))
}

impl View for Vault {
    type V = VaultV;

    closed spec fn view(&self) -> VaultV {
        VaultV {
            notes: notes_view(self.notes@),
            attachments: attachments_view(self.attachments@),
            vault_path: self.vault_path,
        }
    }
}

/// Every note's front matter is a YAML hash.
pub open spec fn fronts_are_hashes(m: NoteMapV) -> bool {
    forall|i: int| 0 <= i < m.len() ==> frontmatter::yaml_is_hash(#[trigger] m[i].1.frontmatter)
}

/// No name names two notes, or two attachments, and every note's front matter is a
/// YAML hash.
pub open spec fn vault_wf(v: VaultV) -> bool {
    keys_distinct(v.notes) && keys_distinct(v.attachments) && fronts_are_hashes(v.notes)
}

/// Inserting a note whose front matter is a hash keeps every front matter a hash.
proof fn lemma_insert_hash(m: NoteMapV, k: Seq<char>, v: NoteV)
    requires
        fronts_are_hashes(m),
        frontmatter::yaml_is_hash(v.frontmatter),
    ensures
        fronts_are_hashes(map_insert(m, k, v)),
{
    let m2 = map_insert(m, k, v);
    lemma_key_index_from(m, k, 0);
    assert forall|i: int| 0 <= i < m2.len() implies frontmatter::yaml_is_hash(#[trigger] m2[i].1.frontmatter) by {
        if i < m.len() && i != key_index(m, k) {
            assert(m2[i] == m[i]);
            assert(frontmatter::yaml_is_hash(m[i].1.frontmatter));
        } else {
            assert(m2[i].1 == v);
        }
    }
}

fn find_note(notes: &Vec<(String, Note)>, k: &String) -> (i: usize)
    ensures
        i == key_index(notes_view(notes@), k@),
{
    let ghost m = notes_view(notes@);
    proof {
        lemma_key_index_from(m, k@, 0);
    }
    let mut i: usize = 0;
    while i < notes.len()
        invariant
            m == notes_view(notes@),
            i <= notes@.len(),
            key_index_from(m, k@, i as int) == key_index(m, k@),
        decreases notes@.len() - i,
    {
        assert(m[i as int].0 == notes@[i as int].0@);
        if notes[i].0 == *k {
            return i;
        }
        i = i + 1;
    }
    i
}

fn insert_note(notes: &mut Vec<(String, Note)>, k: String, n: Note)
    ensures
        notes_view(final(notes)@) == map_insert(notes_view(old(notes)@), k@, n@),
{
    let i = find_note(notes, &k);
    let ghost m = notes_view(notes@);
    if i < notes.len() {
        notes.remove(i);
        notes.insert(i, (k, n));
        assert(notes_view(notes@) =~= m.update(i as int, (k@, n@)));
    } else {
        notes.push((k, n));
        assert(notes_view(notes@) =~= m.push((k@, n@)));
    }
}

fn find_attachment(attachments: &Vec<(String, PathBuf)>, k: &String) -> (i: usize)
    ensures
        i == key_index(attachments_view(attachments@), k@),
{
    let ghost m = attachments_view(attachments@);
    proof {
        lemma_key_index_from(m, k@, 0);
    }
    let mut i: usize = 0;
    while i < attachments.len()
        invariant
            m == attachments_view(attachments@),
            i <= attachments@.len(),
            key_index_from(m, k@, i as int) == key_index(m, k@),
        decreases attachments@.len() - i,
    {
        assert(m[i as int].0 == attachments@[i as int].0@);
        if attachments[i].0 == *k {
            return i;
        }
        i = i + 1;
    }
    i
}

/// A new note with no tags and no links yet. A first front matter token becomes the
/// note's front matter; without one it starts from the empty hash `empty`. Either way
/// the front matter gets the entry `type: note`.
pub open spec fn new_note(path: PathBuf, name: Seq<char>, toks: Seq<TokenV>, empty: Yaml) -> NoteV {
    let has_fm = toks.len() > 0 && toks[0] is Frontmatter;
    let fm = if has_fm { toks[0]->Frontmatter_0 } else { empty };
    NoteV {
        path,
        name,
        tokens: if has_fm { toks.drop_first() } else { toks },
        frontmatter: frontmatter::yaml_with_entry(fm, "type"@, "note"@),
        tags: seq![],
        backlinks: seq![],
        links: seq![],
    }
}

/// `note` with the tag `tag` appended.
pub open spec fn with_tag(note: NoteV, tag: Seq<char>) -> NoteV {
    NoteV { tags: note.tags.push(tag), ..note }
}

/// `note` with the link `to` appended.
pub open spec fn with_link(note: NoteV, to: Seq<char>) -> NoteV {
    NoteV { links: note.links.push(to), ..note }
}

/// `note` with the backlink `from` appended.
pub open spec fn with_backlink(note: NoteV, from: Seq<char>) -> NoteV {
    NoteV { backlinks: note.backlinks.push(from), ..note }
}

/// Indexing the tokens `toks` from position `j` on of the note `name` into the vault's
/// notes `m`, in place. A tag is added to the note's tags; a link to a note of the
/// vault (by the normalized destination) adds that note to the note's links and the
/// note to its backlinks; a link with an empty destination, or to no note, adds
/// nothing. Nothing happens when `name` names no note.
pub open spec fn index_tokens(m: NoteMapV, name: Seq<char>, toks: Seq<TokenV>, j: int) -> NoteMapV
    decreases toks.len() - j,
{
    let t = key_index(m, name);
    if j < 0 || j >= toks.len() || t >= m.len() {
        m
    } else {
        match toks[j] {
            TokenV::Tag(tag) => index_tokens(m.update(t, (name, with_tag(m[t].1, tag))), name, toks, j + 1),
            TokenV::InternalLink(l) => {
                let to = normalized(l.dest);
                let k = key_index(m, to);
                if l.dest.len() != 0 && k < m.len() {
                    let m1 = m.update(t, (name, with_link(m[t].1, to)));
                    let m2 = m1.update(k, (to, with_backlink(m1[k].1, name)));
                    index_tokens(m2, name, toks, j + 1)
                } else {
                    index_tokens(m, name, toks, j + 1)
                }
            },
            _ => index_tokens(m, name, toks, j + 1),
        }
    }
}

/// Indexing the notes of `snap` (the notes as they were before indexing began) from
/// position `i` on, each by its tokens, into `m`.
pub open spec fn index_notes(m: NoteMapV, snap: NoteMapV, i: int) -> NoteMapV
    decreases snap.len() - i,
{
    if i < 0 || i >= snap.len() {
        m
    } else {
        index_notes(index_tokens(m, snap[i].0, snap[i].1.tokens, 0), snap, i + 1)
    }
}

/// `m2` has the keys of `m` at the same places.
pub open spec fn same_keys(m: NoteMapV, m2: NoteMapV) -> bool {
    m2.len() == m.len() && forall|x: int| 0 <= x < m.len() ==> #[trigger] m2[x].0 == m[x].0
}

/// Replacing a note by one with the same front matter keeps the keys where they are,
/// distinct, and every front matter a hash.
proof fn lemma_update_note(m: NoteMapV, i: int, n: NoteV)
    requires
        0 <= i < m.len(),
        n.frontmatter == m[i].1.frontmatter,
    ensures
        same_keys(m, m.update(i, (m[i].0, n))),
        keys_distinct(m) ==> keys_distinct(m.update(i, (m[i].0, n))),
        fronts_are_hashes(m) ==> fronts_are_hashes(m.update(i, (m[i].0, n))),
{
    let m2 = m.update(i, (m[i].0, n));
    if fronts_are_hashes(m) {
        assert forall|x: int| 0 <= x < m2.len() implies frontmatter::yaml_is_hash(#[trigger] m2[x].1.frontmatter) by {
            assert(frontmatter::yaml_is_hash(m[x].1.frontmatter));
        }
    }
}

/// Indexing keeps the keys of the vault where they are and distinct, and every front
/// matter a hash.
pub proof fn lemma_index_tokens_keys(m: NoteMapV, name: Seq<char>, toks: Seq<TokenV>, j: int)
    requires
        keys_distinct(m),
    ensures
        keys_distinct(index_tokens(m, name, toks, j)),
        same_keys(m, index_tokens(m, name, toks, j)),
        fronts_are_hashes(m) ==> fronts_are_hashes(index_tokens(m, name, toks, j)),
    decreases toks.len() - j,
{
    let t = key_index(m, name);
    lemma_key_index_from(m, name, 0);
    if 0 <= j < toks.len() && t < m.len() {
        match toks[j] {
            TokenV::Tag(tag) => {
                let m2 = m.update(t, (name, with_tag(m[t].1, tag)));
                lemma_update_note(m, t, with_tag(m[t].1, tag));
                lemma_index_tokens_keys(m2, name, toks, j + 1);
            },
            TokenV::InternalLink(l) => {
                let to = normalized(l.dest);
                let k = key_index(m, to);
                lemma_key_index_from(m, to, 0);
                if l.dest.len() != 0 && k < m.len() {
                    let m1 = m.update(t, (name, with_link(m[t].1, to)));
                    lemma_update_note(m, t, with_link(m[t].1, to));
                    let m2 = m1.update(k, (to, with_backlink(m1[k].1, name)));
                    lemma_update_note(m1, k, with_backlink(m1[k].1, name));
                    lemma_index_tokens_keys(m2, name, toks, j + 1);
                } else {
                    lemma_index_tokens_keys(m, name, toks, j + 1);
                }
            },
            _ => lemma_index_tokens_keys(m, name, toks, j + 1),
        }
    }
}

/// Indexing the notes keeps the keys of the vault where they are and distinct, and
/// every front matter a hash.
pub proof fn lemma_index_notes_keys(m: NoteMapV, snap: NoteMapV, i: int)
    requires
        keys_distinct(m),
    ensures
        keys_distinct(index_notes(m, snap, i)),
        same_keys(m, index_notes(m, snap, i)),
        fronts_are_hashes(m) ==> fronts_are_hashes(index_notes(m, snap, i)),
    decreases snap.len() - i,
{
    if 0 <= i < snap.len() {
        let m2 = index_tokens(m, snap[i].0, snap[i].1.tokens, 0);
        lemma_index_tokens_keys(m, snap[i].0, snap[i].1.tokens, 0);
        lemma_index_notes_keys(m2, snap, i + 1);
    }
}

fn clone_note_entries(v: &Vec<(String, Note)>) -> (r: Vec<(String, Note)>)
    ensures
        notes_view(r@) == notes_view(v@),
{
    let mut r: Vec<(String, Note)> = Vec::new();
    let mut i: usize = 0;
    while i < v.len()
        invariant
            i <= v@.len(),
            notes_view(r@) == notes_view(v@.take(i as int)),
        decreases v@.len() - i,
    {
        let ghost before = r@;
        let e = (v[i].0.clone(), v[i].1.clone());
        r.push(e);
        assert(notes_view(r@) =~= notes_view(before).push((e.0@, e.1@)));
        assert(v@.take(i + 1) =~= v@.take(i as int).push(v@[i as int]));
        assert(notes_view(v@.take(i + 1)) =~= notes_view(v@.take(i as int)).push(
            (v@[i as int].0@, v@[i as int].1@),
        ));
        i = i + 1;
    }
    assert(v@.take(v@.len() as int) =~= v@);
    r
}

impl Vault {
    /// An empty vault for the directory `path`.
    pub fn from_directory(path: &PathBuf) -> (r: Result<Vault, std::io::Error>)
        ensures
            r matches Ok(v) && v@ == (VaultV { notes: seq![], attachments: seq![], vault_path: *path })
                && vault_wf(v@),
    {
        let vault = Vault { notes: Vec::new(), attachments: Vec::new(), vault_path: path_clone(path) };
        assert(notes_view(vault.notes@) =~= seq![]);
        assert(attachments_view(vault.attachments@) =~= seq![]);
        Ok(vault)
    }

    /// Adds the attachment at `path` under the normalized form of its file name.
    pub fn add_attachment(&mut self, file_name: String, path: PathBuf)
        requires
            vault_wf(old(self)@),
        ensures
            vault_wf(final(self)@),
            final(self)@ == (VaultV {
                attachments: map_insert(old(self)@.attachments, normalized(file_name@), path),
                ..old(self)@
            }),
    {
        let name = normalize_name(file_name);
        let i = find_attachment(&self.attachments, &name);
        let ghost m = attachments_view(self.attachments@);
        proof {
            lemma_insert_distinct(m, name@, path);
        }
        if i < self.attachments.len() {
            self.attachments.remove(i);
            self.attachments.insert(i, (name, path));
            assert(attachments_view(self.attachments@) =~= m.update(i as int, (name@, path)));
        } else {
            self.attachments.push((name, path));
            assert(attachments_view(self.attachments@) =~= m.push((name@, path)));
        }
    }

    /// Adds the note named `name` (its file stem) at `path` within the vault, made of
    /// the tokens of its file: see `new_note`. It is kept under its normalized name.
    pub fn add_note(&mut self, path: PathBuf, name: String, tokens: Vec<Token>)
        requires
            vault_wf(old(self)@),
            tokens@.len() > 0 && tokens@[0]@ is Frontmatter ==> frontmatter::yaml_is_hash(
                tokens@[0]@->Frontmatter_0,
            ),
        ensures
            vault_wf(final(self)@),
            exists|empty: Yaml|
                frontmatter::yaml_is_hash(empty) && frontmatter::yaml_hash_len(empty) == 0 && final(self)@
                    == (VaultV {
                    notes: map_insert(
                        old(self)@.notes,
                        normalized(name@),
                        new_note(path, name@, tokens_view(tokens@), empty),
                    ),
                    ..old(self)@
                }),
    {
        let ghost tv = tokens_view(tokens@);
        let mut tokens = tokens;
        let empty = frontmatter::yaml_empty_hash();
        let ghost e = empty;
        let has_fm = tokens.len() > 0 && match &tokens[0] {
            Token::Frontmatter(_) => true,
            _ => false,
        };
        let mut frontmatter = if has_fm {
            match tokens.remove(0) {
                Token::Frontmatter(f) => f,
                _ => empty,
            }
        } else {
            empty
        };
        assert(tokens_view(tokens@) =~= if has_fm { tv.drop_first() } else { tv });
        frontmatter::yaml_insert_str(&mut frontmatter, "type", "note");
        let note = Note {
            path,
            name: name.clone(),
            tokens,
            frontmatter,
            links: Vec::new(),
            tags: Vec::new(),
            backlinks: Vec::new(),
        };
        assert(strings_view(note.links@) =~= seq![]);
        assert(strings_view(note.tags@) =~= seq![]);
        assert(strings_view(note.backlinks@) =~= seq![]);
        let normalized_name = normalize_name(name);
        let ghost m = notes_view(self.notes@);
        proof {
            lemma_insert_distinct(m, normalized_name@, note@);
            lemma_insert_hash(m, normalized_name@, note@);
        }
        insert_note(&mut self.notes, normalized_name, note);
    }

    /// Indexes the tokens `toks` of the note `name`; see `index_tokens`.
    fn index_note(&mut self, name: &String, toks: &Vec<Token>)
        requires
            vault_wf(old(self)@),
            key_index(old(self)@.notes, name@) < old(self)@.notes.len(),
        ensures
            final(self)@ == (VaultV {
                notes: index_tokens(old(self)@.notes, name@, tokens_view(toks@), 0),
                ..old(self)@
            }),
            vault_wf(final(self)@),
    {
        let ghost tv = tokens_view(toks@);
        let ghost m0 = old(self)@.notes;
        let ghost total = index_tokens(m0, name@, tv, 0);
        proof {
            lemma_key_index_from(m0, name@, 0);
        }
        let t = find_note(&self.notes, name);
        let mut j: usize = 0;
        while j < toks.len()
            invariant
                tv == tokens_view(toks@),
                j <= toks@.len(),
                vault_wf(self@),
                same_keys(m0, self@.notes),
                t == key_index(m0, name@),
                t < m0.len(),
                m0[t as int].0 == name@,
                self@.attachments == old(self)@.attachments,
                self@.vault_path == old(self)@.vault_path,
                index_tokens(self@.notes, name@, tv, j as int) == total,
            decreases toks@.len() - j,
        {
            let ghost m = self@.notes;
            proof {
                lemma_same_keys(m0, m, name@, 0);
                assert(toks@[j as int]@ == tv[j as int]);
            }
            match &toks[j] {
                Token::Tag(tag) => {
                    let mut e = self.notes.remove(t);
                    let ghost ev = e.1@;
                    e.1.tags.push(tag.clone());
                    assert(strings_view(e.1.tags@) =~= ev.tags.push(tag@));
                    assert(e.1@ == with_tag(ev, tag@));
                    self.notes.insert(t, e);
                    assert(notes_view(self.notes@) =~= m.update(t as int, (name@, with_tag(m[t as int].1, tag@))));
                    proof {
                        lemma_update_note(m, t as int, with_tag(m[t as int].1, tag@));
                    }
                },
                Token::InternalLink(link) => {
                    let to = normalize_name(link.dest.clone());
                    let k = find_note(&self.notes, &to);
                    proof {
                        lemma_key_index_from(m, to@, 0);
                    }
                    if !link.dest.as_str().is_empty() && k < self.notes.len() {
                        let mut e = self.notes.remove(t);
                        let ghost ev = e.1@;
                        e.1.links.push(to.clone());
                        assert(strings_view(e.1.links@) =~= ev.links.push(to@));
                        assert(e.1@ == with_link(ev, to@));
                        self.notes.insert(t, e);
                        let ghost m1 = m.update(t as int, (name@, with_link(m[t as int].1, to@)));
                        assert(notes_view(self.notes@) =~= m1);
                        proof {
                            lemma_update_note(m, t as int, with_link(m[t as int].1, to@));
                        }
                        let mut f = self.notes.remove(k);
                        let ghost fv = f.1@;
                        f.1.backlinks.push(name.clone());
                        assert(strings_view(f.1.backlinks@) =~= fv.backlinks.push(name@));
                        assert(f.1@ == with_backlink(fv, name@));
                        self.notes.insert(k, f);
                        assert(notes_view(self.notes@) =~= m1.update(k as int, (to@, with_backlink(m1[k as int].1, name@))));
                        proof {
                            lemma_update_note(m1, k as int, with_backlink(m1[k as int].1, name@));
                        }
                    } else {
                        assert(link.dest@.len() == 0 || k >= m.len());
                    }
                },
                _ => {},
            }
            j = j + 1;
        }
    }

    /// Fills in the tags, links and backlinks of the notes, walking the notes in the
    /// order they were added; see `index_notes`.
    pub fn index(&mut self)
        requires
            vault_wf(old(self)@),
        ensures
            vault_wf(final(self)@),
            final(self)@ == (VaultV { notes: index_notes(old(self)@.notes, old(self)@.notes, 0), ..old(self)@ }),
    {
        let snapshot = clone_note_entries(&self.notes);
        let ghost snap = notes_view(snapshot@);
        let mut i: usize = 0;
        while i < snapshot.len()
            invariant
                snap == notes_view(snapshot@),
                snap == old(self)@.notes,
                i <= snap.len(),
                vault_wf(self@),
                same_keys(snap, self@.notes),
                self@.attachments == old(self)@.attachments,
                self@.vault_path == old(self)@.vault_path,
                index_notes(self@.notes, snap, i as int) == index_notes(snap, snap, 0),
            decreases snap.len() - i,
        {
            let name = &snapshot[i].0;
            let toks = &snapshot[i].1.tokens;
            assert(snap[i as int] == (name@, snapshot@[i as int].1@));
            assert(snap[i as int].1.tokens == tokens_view(toks@));
            let ghost m = self@.notes;
            proof {
                lemma_key_index_from(m, name@, 0);
                if key_index(m, name@) >= m.len() {
                    assert(m[i as int].0 == name@);
                }
                lemma_index_tokens_keys(m, name@, tokens_view(toks@), 0);
            }
            self.index_note(name, toks);
            i = i + 1;
        }
    }

    /// The notes, by normalized name.
    pub fn notes(&self) -> (n: &Vec<(String, Note)>)
        ensures
            notes_view(n@) == self@.notes,
    {
        &self.notes
    }

    /// The attachments, by normalized name.
    pub fn attachments(&self) -> (a: &Vec<(String, PathBuf)>)
        ensures
            attachments_view(a@) == self@.attachments,
    {
        &self.attachments
    }

    /// The directory of the vault.
    pub fn vault_path(&self) -> (p: &PathBuf)
        ensures
            *p == self@.vault_path,
    {
        &self.vault_path
    }
}

} // verus!

verus! {

/// `x` names a note of `m`.
pub open spec fn resolves(m: NoteMapV, x: Seq<char>) -> bool {
    key_index(m, x) < m.len()
}

/// Every link and every backlink of `note` names a note of `m`.
pub open spec fn note_resolves(m: NoteMapV, note: NoteV) -> bool {
    &&& forall|j: int| 0 <= j < note.links.len() ==> resolves(m, #[trigger] note.links[j])
    &&& forall|j: int| 0 <= j < note.backlinks.len() ==> resolves(m, #[trigger] note.backlinks[j])
}

/// Every link and every backlink of every note names a note of `m`.
pub open spec fn links_resolve(m: NoteMapV) -> bool {
    forall|i: int| 0 <= i < m.len() ==> note_resolves(m, #[trigger] m[i].1)
}

/// Maps with the same keys at the same places find keys at the same places.
pub proof fn lemma_same_keys<V, W>(m1: Seq<(Seq<char>, V)>, m2: Seq<(Seq<char>, W)>, k: Seq<char>, i: int)
    requires
        0 <= i,
        m1.len() == m2.len(),
        forall|j: int| 0 <= j < m1.len() ==> #[trigger] m1[j].0 == m2[j].0,
    ensures
        key_index_from(m1, k, i) == key_index_from(m2, k, i),
    decreases m1.len() - i,
{
    if i < m1.len() && m1[i].0 != k {
        lemma_same_keys(m1, m2, k, i + 1);
    }
}

/// A note that resolves in `m1` resolves in any `m2` with the same keys.
pub proof fn lemma_note_resolves_same_keys(m1: NoteMapV, m2: NoteMapV, note: NoteV)
    requires
        m1.len() == m2.len(),
        forall|j: int| 0 <= j < m1.len() ==> #[trigger] m1[j].0 == m2[j].0,
        note_resolves(m1, note),
    ensures
        note_resolves(m2, note),
{
    assert forall|j: int| 0 <= j < note.links.len() implies resolves(m2, #[trigger] note.links[j]) by {
        lemma_same_keys(m1, m2, note.links[j], 0);
    }
    assert forall|j: int| 0 <= j < note.backlinks.len() implies resolves(m2, #[trigger] note.backlinks[j]) by {
        lemma_same_keys(m1, m2, note.backlinks[j], 0);
    }
}

/// Replacing the note at `t` by one that resolves, keeping its key, keeps every link
/// resolving.
pub proof fn lemma_replace_resolves(m: NoteMapV, t: int, key: Seq<char>, note: NoteV)
    requires
        0 <= t < m.len(),
        m[t].0 == key,
        links_resolve(m),
        note_resolves(m, note),
    ensures
        links_resolve(m.update(t, (key, note))),
{
    let m2 = m.update(t, (key, note));
    assert forall|i: int| 0 <= i < m2.len() implies note_resolves(m2, #[trigger] m2[i].1) by {
        if i == t {
            lemma_note_resolves_same_keys(m, m2, note);
        } else {
            assert(note_resolves(m, m[i].1));
            lemma_note_resolves_same_keys(m, m2, m[i].1);
        }
    }
}

/// Indexing the tokens of a note keeps every link and backlink resolving.
pub proof fn lemma_index_tokens_resolve(m: NoteMapV, name: Seq<char>, toks: Seq<TokenV>, j: int)
    requires
        keys_distinct(m),
        links_resolve(m),
    ensures
        links_resolve(index_tokens(m, name, toks, j)),
    decreases toks.len() - j,
{
    lemma_key_index_from(m, name, 0);
    let t = key_index(m, name);
    if 0 <= j < toks.len() && t < m.len() {
        assert(note_resolves(m, m[t].1));
        match toks[j] {
            TokenV::Tag(tag) => {
                let n2 = with_tag(m[t].1, tag);
                assert(note_resolves(m, n2)) by {
                    assert forall|x: int| 0 <= x < n2.links.len() implies resolves(m, #[trigger] n2.links[x]) by {
                        assert(n2.links[x] == m[t].1.links[x]);
                    }
                    assert forall|x: int| 0 <= x < n2.backlinks.len() implies resolves(m, #[trigger] n2.backlinks[x]) by {
                        assert(n2.backlinks[x] == m[t].1.backlinks[x]);
                    }
                }
                let m2 = m.update(t, (name, n2));
                lemma_replace_resolves(m, t, name, n2);
                lemma_update_note(m, t, n2);
                lemma_index_tokens_resolve(m2, name, toks, j + 1);
            },
            TokenV::InternalLink(l) => {
                let to = normalized(l.dest);
                let k = key_index(m, to);
                lemma_key_index_from(m, to, 0);
                if l.dest.len() != 0 && k < m.len() {
                    let n2 = with_link(m[t].1, to);
                    assert(note_resolves(m, n2)) by {
                        assert forall|x: int| 0 <= x < n2.links.len() implies resolves(m, #[trigger] n2.links[x]) by {
                            if x < m[t].1.links.len() {
                                assert(n2.links[x] == m[t].1.links[x]);
                            }
                        }
                        assert forall|x: int| 0 <= x < n2.backlinks.len() implies resolves(m, #[trigger] n2.backlinks[x]) by {
                            assert(n2.backlinks[x] == m[t].1.backlinks[x]);
                        }
                    }
                    let m1 = m.update(t, (name, n2));
                    lemma_replace_resolves(m, t, name, n2);
                    lemma_update_note(m, t, n2);
                    lemma_same_keys(m, m1, name, 0);
                    assert(note_resolves(m1, m1[k].1));
                    let b = with_backlink(m1[k].1, name);
                    assert(note_resolves(m1, b)) by {
                        assert forall|x: int| 0 <= x < b.links.len() implies resolves(m1, #[trigger] b.links[x]) by {
                            assert(b.links[x] == m1[k].1.links[x]);
                        }
                        assert forall|x: int| 0 <= x < b.backlinks.len() implies resolves(m1, #[trigger] b.backlinks[x]) by {
                            if x < m1[k].1.backlinks.len() {
                                assert(b.backlinks[x] == m1[k].1.backlinks[x]);
                            }
                        }
                    }
                    let m2 = m1.update(k, (to, b));
                    lemma_replace_resolves(m1, k, to, b);
                    lemma_update_note(m1, k, b);
                    lemma_index_tokens_resolve(m2, name, toks, j + 1);
                } else {
                    lemma_index_tokens_resolve(m, name, toks, j + 1);
                }
            },
            _ => lemma_index_tokens_resolve(m, name, toks, j + 1),
        }
    }
}

/// Indexing only records links to, and backlinks from, notes of the vault: when every
/// link and backlink names a note before indexing, every one does after it.
pub proof fn lemma_index_links_resolve(m: NoteMapV, snap: NoteMapV, i: int)
    requires
        keys_distinct(m),
        links_resolve(m),
    ensures
        links_resolve(index_notes(m, snap, i)),
    decreases snap.len() - i,
{
    if 0 <= i < snap.len() {
        let m2 = index_tokens(m, snap[i].0, snap[i].1.tokens, 0);
        lemma_index_tokens_keys(m, snap[i].0, snap[i].1.tokens, 0);
        lemma_index_tokens_resolve(m, snap[i].0, snap[i].1.tokens, 0);
        lemma_index_links_resolve(m2, snap, i + 1);
    }
}

/// A key found in `m` is found at the same place once an entry is pushed.
proof fn lemma_push_keeps_found<V>(m: Seq<(Seq<char>, V)>, e: (Seq<char>, V), x: Seq<char>, i: int)
    requires
        0 <= i <= m.len(),
        key_index_from(m, x, i) < m.len(),
    ensures
        key_index_from(m.push(e), x, i) == key_index_from(m, x, i),
    decreases m.len() - i,
{
    if i < m.len() && m[i].0 != x {
        lemma_push_keeps_found(m, e, x, i + 1);
    }
}

/// A name that names a note of `m` still names one after any insertion.
proof fn lemma_insert_keeps_resolving(m: NoteMapV, k: Seq<char>, v: NoteV, x: Seq<char>)
    requires
        resolves(m, x),
    ensures
        resolves(map_insert(m, k, v), x),
{
    let m2 = map_insert(m, k, v);
    lemma_key_index_from(m, k, 0);
    if key_index(m, k) < m.len() {
        assert forall|j: int| 0 <= j < m.len() implies #[trigger] m[j].0 == m2[j].0 by {}
        lemma_same_keys(m, m2, x, 0);
    } else {
        lemma_push_keeps_found(m, (k, v), x, 0);
    }
}

/// Inserting a note whose links and backlinks name notes of `m` keeps every link and
/// backlink resolving.
pub proof fn lemma_insert_resolves(m: NoteMapV, k: Seq<char>, v: NoteV)
    requires
        links_resolve(m),
        note_resolves(m, v),
    ensures
        links_resolve(map_insert(m, k, v)),
{
    let m2 = map_insert(m, k, v);
    lemma_key_index_from(m, k, 0);
    assert forall|i: int| 0 <= i < m2.len() implies note_resolves(m2, #[trigger] m2[i].1) by {
        let n = m2[i].1;
        let n0 = if i < m.len() && i != key_index(m, k) { m[i].1 } else { v };
        assert(n == n0);
        assert(note_resolves(m, n0));
        assert forall|j: int| 0 <= j < n.links.len() implies resolves(m2, #[trigger] n.links[j]) by {
            lemma_insert_keeps_resolving(m, k, v, n.links[j]);
        }
        assert forall|j: int| 0 <= j < n.backlinks.len() implies resolves(m2, #[trigger] n.backlinks[j]) by {
            lemma_insert_keeps_resolving(m, k, v, n.backlinks[j]);
        }
    }
}

/// Adding a note keeps every link and backlink of the vault naming a note of it: the
/// new note has none yet, and no name leaves the vault.
pub proof fn lemma_add_note_resolves(
    m: NoteMapV,
    key: Seq<char>,
    path: PathBuf,
    name: Seq<char>,
    toks: Seq<TokenV>,
    empty: Yaml,
)
    requires
        links_resolve(m),
    ensures
        links_resolve(map_insert(m, key, new_note(path, name, toks, empty))),
{
    lemma_insert_resolves(m, key, new_note(path, name, toks, empty));
}

/// Every link, backlink and tag of `n` is one of `n2`.
pub open spec fn note_grows(n: NoteV, n2: NoteV) -> bool {
    &&& forall|x: Seq<char>| n.links.contains(x) ==> n2.links.contains(x)
    &&& forall|x: Seq<char>| n.backlinks.contains(x) ==> n2.backlinks.contains(x)
    &&& forall|x: Seq<char>| n.tags.contains(x) ==> n2.tags.contains(x)
}

/// `m2` has the keys of `m` at the same places, and each of its notes keeps every
/// link, backlink and tag of the note of `m` at that place.
pub open spec fn map_grows(m: NoteMapV, m2: NoteMapV) -> bool {
    &&& same_keys(m, m2)
    &&& forall|i: int| 0 <= i < m.len() ==> note_grows(m[i].1, #[trigger] m2[i].1)
}

/// Appending to a sequence keeps what it contains.
proof fn lemma_push_contains(s: Seq<Seq<char>>, a: Seq<char>)
    ensures
        forall|x: Seq<char>| s.contains(x) ==> s.push(a).contains(x),
        s.push(a).contains(a),
{
    assert forall|x: Seq<char>| s.contains(x) implies s.push(a).contains(x) by {
        let i = choose|i: int| 0 <= i < s.len() && s[i] == x;
        assert(s.push(a)[i] == x);
    }
    assert(s.push(a)[s.len() as int] == a);
}

/// Replacing the note at `i` by one that keeps all it had grows the map.
proof fn lemma_update_grows(m: NoteMapV, i: int, n: NoteV)
    requires
        0 <= i < m.len(),
        note_grows(m[i].1, n),
    ensures
        map_grows(m, m.update(i, (m[i].0, n))),
{
    let m2 = m.update(i, (m[i].0, n));
    assert forall|x: int| 0 <= x < m.len() implies note_grows(m[x].1, #[trigger] m2[x].1) by {}
}

/// Growing twice is growing.
proof fn lemma_grows_trans(m1: NoteMapV, m2: NoteMapV, m3: NoteMapV)
    requires
        map_grows(m1, m2),
        map_grows(m2, m3),
    ensures
        map_grows(m1, m3),
{
    assert forall|i: int| 0 <= i < m1.len() implies note_grows(m1[i].1, #[trigger] m3[i].1) by {
        assert(note_grows(m1[i].1, m2[i].1));
        assert(note_grows(m2[i].1, m3[i].1));
    }
}

/// Indexing only adds links, backlinks and tags.
pub proof fn lemma_index_tokens_grows(m: NoteMapV, name: Seq<char>, toks: Seq<TokenV>, j: int)
    ensures
        map_grows(m, index_tokens(m, name, toks, j)),
    decreases toks.len() - j,
{
    lemma_key_index_from(m, name, 0);
    let t = key_index(m, name);
    if 0 <= j < toks.len() && t < m.len() {
        match toks[j] {
            TokenV::Tag(tag) => {
                let n2 = with_tag(m[t].1, tag);
                lemma_push_contains(m[t].1.tags, tag);
                let m2 = m.update(t, (name, n2));
                lemma_update_grows(m, t, n2);
                lemma_index_tokens_grows(m2, name, toks, j + 1);
                lemma_grows_trans(m, m2, index_tokens(m2, name, toks, j + 1));
            },
            TokenV::InternalLink(l) => {
                let to = normalized(l.dest);
                let k = key_index(m, to);
                lemma_key_index_from(m, to, 0);
                if l.dest.len() != 0 && k < m.len() {
                    let n2 = with_link(m[t].1, to);
                    lemma_push_contains(m[t].1.links, to);
                    let m1 = m.update(t, (name, n2));
                    lemma_update_grows(m, t, n2);
                    let b = with_backlink(m1[k].1, name);
                    lemma_push_contains(m1[k].1.backlinks, name);
                    let m2 = m1.update(k, (to, b));
                    lemma_update_grows(m1, k, b);
                    lemma_grows_trans(m, m1, m2);
                    lemma_index_tokens_grows(m2, name, toks, j + 1);
                    lemma_grows_trans(m, m2, index_tokens(m2, name, toks, j + 1));
                } else {
                    lemma_index_tokens_grows(m, name, toks, j + 1);
                }
            },
            _ => lemma_index_tokens_grows(m, name, toks, j + 1),
        }
    } else {
        assert(map_grows(m, m)) by {
            assert forall|i: int| 0 <= i < m.len() implies note_grows(m[i].1, #[trigger] m[i].1) by {}
        }
    }
}

/// Indexing notes only adds links, backlinks and tags.
pub proof fn lemma_index_notes_grows(m: NoteMapV, snap: NoteMapV, i: int)
    ensures
        map_grows(m, index_notes(m, snap, i)),
    decreases snap.len() - i,
{
    if 0 <= i < snap.len() {
        let m2 = index_tokens(m, snap[i].0, snap[i].1.tokens, 0);
        lemma_index_tokens_grows(m, snap[i].0, snap[i].1.tokens, 0);
        lemma_index_notes_grows(m2, snap, i + 1);
        lemma_grows_trans(m, m2, index_notes(m2, snap, i + 1));
    } else {
        assert(map_grows(m, m)) by {
            assert forall|x: int| 0 <= x < m.len() implies note_grows(m[x].1, #[trigger] m[x].1) by {}
        }
    }
}

/// What indexing records in `r` for the token `tok` of the note `name` of `m`: a tag
/// among the note's tags; for a link with a destination that names a note of `m`,
/// that note among the note's links and the note among that note's backlinks.
pub open spec fn token_recorded(m: NoteMapV, r: NoteMapV, name: Seq<char>, tok: TokenV) -> bool {
    let a = key_index(m, name);
    match tok {
        TokenV::Tag(tag) => r[a].1.tags.contains(tag),
        TokenV::InternalLink(l) => {
            let to = normalized(l.dest);
            l.dest.len() != 0 && key_index(m, to) < m.len() ==> r[a].1.links.contains(to)
                && r[key_index(m, to)].1.backlinks.contains(name)
        },
        _ => true,
    }
}

/// What is recorded stays recorded as the map grows.
proof fn lemma_recorded_grows(m: NoteMapV, r: NoteMapV, r2: NoteMapV, name: Seq<char>, tok: TokenV)
    requires
        same_keys(m, r),
        map_grows(r, r2),
        key_index(m, name) < m.len(),
        token_recorded(m, r, name, tok),
    ensures
        token_recorded(m, r2, name, tok),
{
    let a = key_index(m, name);
    lemma_key_index_from(m, name, 0);
    assert(note_grows(r[a].1, r2[a].1));
    match tok {
        TokenV::InternalLink(l) => {
            let to = normalized(l.dest);
            lemma_key_index_from(m, to, 0);
            if l.dest.len() != 0 && key_index(m, to) < m.len() {
                assert(note_grows(r[key_index(m, to)].1, r2[key_index(m, to)].1));
            }
        },
        _ => {},
    }
}

/// Indexing the tokens of a note records every one of them.
proof fn lemma_index_tokens_records(m: NoteMapV, name: Seq<char>, toks: Seq<TokenV>, j: int)
    requires
        keys_distinct(m),
        key_index(m, name) < m.len(),
        0 <= j,
    ensures
        forall|jj: int| j <= jj < toks.len() ==> token_recorded(m, index_tokens(m, name, toks, j), name, #[trigger] toks[jj]),
    decreases toks.len() - j,
{
    lemma_key_index_from(m, name, 0);
    let t = key_index(m, name);
    let r = index_tokens(m, name, toks, j);
    if j < toks.len() {
        // The step at `j`, and the map `m2` after it.
        let m2 = match toks[j] {
            TokenV::Tag(tag) => m.update(t, (name, with_tag(m[t].1, tag))),
            TokenV::InternalLink(l) => {
                let to = normalized(l.dest);
                let k = key_index(m, to);
                if l.dest.len() != 0 && k < m.len() {
                    let m1 = m.update(t, (name, with_link(m[t].1, to)));
                    m1.update(k, (to, with_backlink(m1[k].1, name)))
                } else {
                    m
                }
            },
            _ => m,
        };
        assert(r == index_tokens(m2, name, toks, j + 1));
        lemma_index_tokens_keys(m, name, toks, j);
        lemma_index_tokens_grows(m2, name, toks, j + 1);
        // `m2` has the keys of `m`, so it finds every name where `m` does.
        match toks[j] {
            TokenV::Tag(tag) => {
                lemma_update_note(m, t, with_tag(m[t].1, tag));
                lemma_push_contains(m[t].1.tags, tag);
            },
            TokenV::InternalLink(l) => {
                let to = normalized(l.dest);
                let k = key_index(m, to);
                lemma_key_index_from(m, to, 0);
                if l.dest.len() != 0 && k < m.len() {
                    let m1 = m.update(t, (name, with_link(m[t].1, to)));
                    lemma_update_note(m, t, with_link(m[t].1, to));
                    lemma_update_note(m1, k, with_backlink(m1[k].1, name));
                    lemma_push_contains(m[t].1.links, to);
                    lemma_push_contains(m1[k].1.backlinks, name);
                    if k != t {
                        assert(m2[t].1.links == m1[t].1.links);
                    }
                }
            },
            _ => {},
        }
        assert(same_keys(m, m2));
        lemma_key_index_from(m2, name, 0);
        assert(keys_distinct(m2));
        assert forall|x: int| 0 <= x < m.len() implies #[trigger] m[x].0 == m2[x].0 by {}
        lemma_same_keys(m, m2, name, 0);
        assert(token_recorded(m, m2, name, toks[j]));
        lemma_recorded_grows(m, m2, r, name, toks[j]);
        lemma_index_tokens_records(m2, name, toks, j + 1);
        assert forall|jj: int| j <= jj < toks.len() implies token_recorded(m, r, name, #[trigger] toks[jj]) by {
            if jj > j {
                assert(token_recorded(m2, r, name, toks[jj]));
                match toks[jj] {
                    TokenV::InternalLink(l) => {
                        lemma_same_keys(m, m2, normalized(l.dest), 0);
                    },
                    _ => {},
                }
            }
        }
    }
}

/// What is recorded with the keys of `m2` is recorded with the same keys in `m`.
proof fn lemma_recorded_same_keys(m: NoteMapV, m2: NoteMapV, r: NoteMapV, name: Seq<char>, tok: TokenV)
    requires
        same_keys(m, m2),
        token_recorded(m2, r, name, tok),
    ensures
        token_recorded(m, r, name, tok),
{
    assert forall|x: int| 0 <= x < m.len() implies #[trigger] m[x].0 == m2[x].0 by {}
    lemma_same_keys(m, m2, name, 0);
    match tok {
        TokenV::InternalLink(l) => lemma_same_keys(m, m2, normalized(l.dest), 0),
        _ => {},
    }
}

/// Indexing the notes of `snap` from `i` on records every token of each of them.
proof fn lemma_index_notes_records(m: NoteMapV, snap: NoteMapV, i: int)
    requires
        keys_distinct(m),
        same_keys(snap, m),
        0 <= i,
    ensures
        forall|a: int, jj: int|
            i <= a < snap.len() && 0 <= jj < snap[a].1.tokens.len() ==> token_recorded(
                m,
                index_notes(m, snap, i),
                snap[a].0,
                #[trigger] snap[a].1.tokens[jj],
            ),
    decreases snap.len() - i,
{
    if i < snap.len() {
        let name = snap[i].0;
        let toks = snap[i].1.tokens;
        lemma_key_index_from(m, name, 0);
        assert(key_index(m, name) < m.len()) by {
            if key_index(m, name) >= m.len() {
                assert(m[i].0 == name);
            }
        }
        let m2 = index_tokens(m, name, toks, 0);
        let r = index_notes(m2, snap, i + 1);
        lemma_index_tokens_records(m, name, toks, 0);
        lemma_index_tokens_keys(m, name, toks, 0);
        lemma_index_notes_grows(m2, snap, i + 1);
        lemma_index_notes_records(m2, snap, i + 1);
        assert forall|a: int, jj: int|
            i <= a < snap.len() && 0 <= jj < snap[a].1.tokens.len() implies token_recorded(
                m,
                r,
                snap[a].0,
                #[trigger] snap[a].1.tokens[jj],
            ) by {
            if a == i {
                assert(token_recorded(m, m2, name, toks[jj]));
                lemma_recorded_grows(m, m2, r, name, toks[jj]);
            } else {
                lemma_recorded_same_keys(m, m2, r, snap[a].0, snap[a].1.tokens[jj]);
            }
        }
    }
}

/// Indexing records every token of every note, whatever the order of the notes: each
/// tag among the note's tags, and for each link whose destination names a note of the
/// vault, that note among the note's links and the note among that note's backlinks.
/// With distinct keys, `key_index(m, m[a].0)` is `a`.
pub proof fn lemma_index_records_every_token(m: NoteMapV)
    requires
        keys_distinct(m),
    ensures
        forall|a: int| 0 <= a < m.len() ==> key_index(m, #[trigger] m[a].0) == a,
        forall|a: int, jj: int|
            0 <= a < m.len() && 0 <= jj < m[a].1.tokens.len() ==> token_recorded(
                m,
                index_notes(m, m, 0),
                m[a].0,
                #[trigger] m[a].1.tokens[jj],
            ),
{
    assert forall|a: int| 0 <= a < m.len() implies key_index(m, #[trigger] m[a].0) == a by {
        lemma_key_index_from(m, m[a].0, 0);
    }
    assert forall|x: int| 0 <= x < m.len() implies #[trigger] m[x].0 == m[x].0 by {}
    lemma_index_notes_records(m, m, 0);
}

/// The note that the token `tok` links to, by its normalized destination, when the
/// destination is not empty and names a note of `m0`.
pub open spec fn link_target(m0: NoteMapV, tok: TokenV) -> Option<Seq<char>> {
    match tok {
        TokenV::InternalLink(l) => if l.dest.len() != 0 && key_index(m0, normalized(l.dest)) < m0.len() {
            Some(normalized(l.dest))
        } else {
            None
        },
        _ => None,
    }
}

/// A token of the note at `a` is the tag `x`.
pub open spec fn tag_from(m0: NoteMapV, a: int, x: Seq<char>) -> bool {
    exists|jj: int| 0 <= jj < m0[a].1.tokens.len() && #[trigger] m0[a].1.tokens[jj] == TokenV::Tag(x)
}

/// A token of the note at `a` links to the note `x`.
pub open spec fn link_from(m0: NoteMapV, a: int, x: Seq<char>) -> bool {
    exists|jj: int| 0 <= jj < m0[a].1.tokens.len() && link_target(m0, #[trigger] m0[a].1.tokens[jj]) == Some(x)
}

/// The note `x` has a token that links to the note at `b`.
pub open spec fn backlink_from(m0: NoteMapV, b: int, x: Seq<char>) -> bool {
    exists|a: int, jj: int|
        0 <= a < m0.len() && m0[a].0 == x && 0 <= jj < m0[a].1.tokens.len() && link_target(
            m0,
            #[trigger] m0[a].1.tokens[jj],
        ) == Some(m0[b].0)
}

/// Every link, backlink and tag of a note of `r` was the note's in `m0` already, or
/// comes from a token of the notes of `m0`.
pub open spec fn explained(m0: NoteMapV, r: NoteMapV) -> bool {
    &&& forall|i: int, x: Seq<char>|
        0 <= i < m0.len() && #[trigger] r[i].1.links.contains(x) ==> m0[i].1.links.contains(x) || link_from(m0, i, x)
    &&& forall|i: int, x: Seq<char>|
        0 <= i < m0.len() && #[trigger] r[i].1.backlinks.contains(x) ==> m0[i].1.backlinks.contains(x)
            || backlink_from(m0, i, x)
    &&& forall|i: int, x: Seq<char>|
        0 <= i < m0.len() && #[trigger] r[i].1.tags.contains(x) ==> m0[i].1.tags.contains(x) || tag_from(m0, i, x)
}

/// What an appended sequence contains.
proof fn lemma_push_contains_only(s: Seq<Seq<char>>, e: Seq<char>)
    ensures
        forall|x: Seq<char>| #[trigger] s.push(e).contains(x) ==> s.contains(x) || x == e,
{
    assert forall|x: Seq<char>| #[trigger] s.push(e).contains(x) implies s.contains(x) || x == e by {
        let i = choose|i: int| 0 <= i < s.push(e).len() && s.push(e)[i] == x;
        if i < s.len() {
            assert(s[i] == x);
        }
    }
}

/// Indexing the tokens of the note at `a` adds only what its tokens explain.
proof fn lemma_index_tokens_explained(m0: NoteMapV, m: NoteMapV, a: int, j: int)
    requires
        keys_distinct(m0),
        same_keys(m0, m),
        explained(m0, m),
        0 <= a < m0.len(),
        0 <= j,
    ensures
        explained(m0, index_tokens(m, m0[a].0, m0[a].1.tokens, j)),
    decreases m0[a].1.tokens.len() - j,
{
    let name = m0[a].0;
    let toks = m0[a].1.tokens;
    assert forall|x: int| 0 <= x < m0.len() implies #[trigger] m0[x].0 == m[x].0 by {}
    lemma_same_keys(m0, m, name, 0);
    lemma_key_index_from(m0, name, 0);
    let t = key_index(m, name);
    assert(t == a);
    if j < toks.len() {
        match toks[j] {
            TokenV::Tag(tag) => {
                let m2 = m.update(t, (name, with_tag(m[t].1, tag)));
                lemma_push_contains_only(m[t].1.tags, tag);
                assert(explained(m0, m2)) by {
                    assert forall|i: int, x: Seq<char>|
                        0 <= i < m0.len() && #[trigger] m2[i].1.tags.contains(x) implies m0[i].1.tags.contains(x)
                            || tag_from(m0, i, x) by {
                        if i == a && !m[i].1.tags.contains(x) {
                            assert(m0[a].1.tokens[j] == TokenV::Tag(x));
                        }
                    }
                    assert forall|i: int, x: Seq<char>|
                        0 <= i < m0.len() && #[trigger] m2[i].1.links.contains(x) implies m0[i].1.links.contains(x)
                            || link_from(m0, i, x) by {
                        assert(m2[i].1.links == m[i].1.links);
                    }
                    assert forall|i: int, x: Seq<char>|
                        0 <= i < m0.len() && #[trigger] m2[i].1.backlinks.contains(x) implies m0[i].1.backlinks.contains(x)
                            || backlink_from(m0, i, x) by {
                        assert(m2[i].1.backlinks == m[i].1.backlinks);
                    }
                }
                lemma_update_note(m, t, with_tag(m[t].1, tag));
                lemma_index_tokens_explained(m0, m2, a, j + 1);
            },
            TokenV::InternalLink(l) => {
                let to = normalized(l.dest);
                let k = key_index(m, to);
                lemma_same_keys(m0, m, to, 0);
                lemma_key_index_from(m0, to, 0);
                if l.dest.len() != 0 && k < m.len() {
                    let m1 = m.update(t, (name, with_link(m[t].1, to)));
                    let m2 = m1.update(k, (to, with_backlink(m1[k].1, name)));
                    assert(link_target(m0, toks[j]) == Some(to));
                    assert(m0[k].0 == to);
                    lemma_push_contains_only(m[t].1.links, to);
                    lemma_push_contains_only(m1[k].1.backlinks, name);
                    assert(explained(m0, m2)) by {
                        assert forall|i: int, x: Seq<char>|
                            0 <= i < m0.len() && #[trigger] m2[i].1.links.contains(x) implies m0[i].1.links.contains(x)
                                || link_from(m0, i, x) by {
                            if i == a {
                                assert(m2[i].1.links == m[t].1.links.push(to));
                                if !m[i].1.links.contains(x) {
                                    assert(link_target(m0, m0[a].1.tokens[j]) == Some(x));
                                }
                            } else {
                                assert(m2[i].1.links == m[i].1.links);
                            }
                        }
                        assert forall|i: int, x: Seq<char>|
                            0 <= i < m0.len() && #[trigger] m2[i].1.backlinks.contains(x) implies m0[i].1.backlinks.contains(x)
                                || backlink_from(m0, i, x) by {
                            if i == k {
                                assert(m1[k].1.backlinks == m[k].1.backlinks);
                                if !m[i].1.backlinks.contains(x) {
                                    assert(x == name);
                                    assert(link_target(m0, m0[a].1.tokens[j]) == Some(m0[i].0));
                                }
                            } else {
                                assert(m2[i].1.backlinks == m[i].1.backlinks);
                            }
                        }
                        assert forall|i: int, x: Seq<char>|
                            0 <= i < m0.len() && #[trigger] m2[i].1.tags.contains(x) implies m0[i].1.tags.contains(x)
                                || tag_from(m0, i, x) by {
                            assert(m2[i].1.tags == m[i].1.tags);
                        }
                    }
                    lemma_update_note(m, t, with_link(m[t].1, to));
                    lemma_update_note(m1, k, with_backlink(m1[k].1, name));
                    lemma_index_tokens_explained(m0, m2, a, j + 1);
                } else {
                    lemma_index_tokens_explained(m0, m, a, j + 1);
                }
            },
            _ => lemma_index_tokens_explained(m0, m, a, j + 1),
        }
    }
}

/// Indexing the notes of `m0` from `i` on adds only what their tokens explain.
proof fn lemma_index_notes_explained(m0: NoteMapV, m: NoteMapV, i: int)
    requires
        keys_distinct(m0),
        same_keys(m0, m),
        explained(m0, m),
        0 <= i,
    ensures
        explained(m0, index_notes(m, m0, i)),
    decreases m0.len() - i,
{
    if i < m0.len() {
        let m2 = index_tokens(m, m0[i].0, m0[i].1.tokens, 0);
        lemma_index_tokens_explained(m0, m, i, 0);
        assert forall|x: int| 0 <= x < m.len() implies #[trigger] m[x].0 == m0[x].0 by {}
        assert(keys_distinct(m));
        lemma_index_tokens_keys(m, m0[i].0, m0[i].1.tokens, 0);
        assert forall|x: int| 0 <= x < m0.len() implies #[trigger] m2[x].0 == m0[x].0 by {
            assert(m2[x].0 == m[x].0);
        }
        lemma_index_notes_explained(m0, m2, i + 1);
    }
}

/// Indexing adds nothing that the tokens do not call for: every link of a note after
/// indexing was one before or is the target of one of its links; every backlink was
/// one before or names a note with a link to it; every tag was one before or is one
/// of its tag tokens. With `lemma_index_records_every_token`, what each note holds
/// afterwards is, as a set, fixed by the notes alone, whatever their order.
pub proof fn lemma_index_adds_only_recorded(m: NoteMapV)
    requires
        keys_distinct(m),
    ensures
        explained(m, index_notes(m, m, 0)),
{
    assert forall|x: int| 0 <= x < m.len() implies #[trigger] m[x].0 == m[x].0 by {}
    lemma_index_notes_explained(m, m, 0);
}

/// The front matter text of a note lists the note's own tags under the key `tags`,
/// its backlinks under `backlinks` and its links under `links`, added in that order to
/// its front matter, which is then emitted as YAML and closed by a `---` line and an
/// empty line. Each list depends only on the field of the same name.
pub proof fn lemma_frontmatter_lists(n: NoteV, tags: Seq<Seq<char>>, backlinks: Seq<Seq<char>>, links: Seq<Seq<char>>)
    requires
        n.tags == tags,
        n.backlinks == backlinks,
        n.links == links,
    ensures
        frontmatter_text_of(n) == frontmatter::yaml_emitted(
            frontmatter::yaml_with_list(
                frontmatter::yaml_with_list(
                    frontmatter::yaml_with_list(n.frontmatter, "tags"@, tags),
                    "backlinks"@,
                    backlinks,
                ),
                "links"@,
                links,
            ),
        ) + "\n---\n\n"@,
        frontmatter_text_of(NoteV { links: backlinks, backlinks: links, ..n }) == frontmatter::yaml_emitted(
            frontmatter::yaml_with_list(
                frontmatter::yaml_with_list(
                    frontmatter::yaml_with_list(n.frontmatter, "tags"@, tags),
                    "backlinks"@,
                    links,
                ),
                "links"@,
                backlinks,
            ),
        ) + "\n---\n\n"@,
{
}

/// The position of the last `/` of a name made of a part that is empty or ends with
/// `/`, then a part without `/`.
proof fn lemma_last_slash_of(p: Seq<char>, base: Seq<char>, i: int)
    requires
        p.len() == 0 || p.last() == '/',
        forall|j: int| 0 <= j < base.len() ==> base[j] != '/',
        p.len() - 1 <= i < p.len() + base.len(),
    ensures
        last_slash_from(p + base, i) == p.len() - 1,
    decreases i + 1,
{
    if i >= p.len() {
        assert((p + base)[i] == base[i - p.len()]);
        lemma_last_slash_of(p, base, i - 1);
    } else if i >= 0 {
        assert((p + base)[i] == p.last());
    }
}

/// A normalized name is the file name, what follows the last `/`, character by
/// character: each space becomes `-` and every other character its first lower-case
/// character.
pub proof fn lemma_normalized_chars(p: Seq<char>, base: Seq<char>)
    requires
        p.len() == 0 || p.last() == '/',
        forall|j: int| 0 <= j < base.len() ==> base[j] != '/',
    ensures
        normalized(p + base).len() == base.len(),
        forall|i: int|
            0 <= i < base.len() ==> #[trigger] normalized(p + base)[i] == (if base[i] == ' ' {
                '-'
            } else {
                text::lower_first(base[i])
            }),
{
    let name = p + base;
    lemma_last_slash_of(p, base, name.len() - 1);
    assert(name.subrange(p.len() as int, name.len() as int) =~= base);
}

} // verus!
