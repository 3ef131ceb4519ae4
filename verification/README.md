# obsidian_hugo

Turns an Obsidian vault into Markdown for Hugo: notes are lexed into tokens
(text, tags, headers, internal and external links, callouts, quotes, math,
dividers, YAML front matter), collected into a vault, and indexed so that each
note knows its tags, the notes it links to and the notes that link to it.

The library under `src/` is verified with Verus:

- `lexing` states the lexer's rules as spec functions over the characters of a
  note and shows that front matter can only be the first token; `lexer`
  implements the rules and proves each step equal to its rule.
- `latex` turns the newlines of TeX into spaces (a second pass changes nothing
  more) and parses TeX into commands, line breaks, symbols and their super- and
  subscripts, each step stated exactly as a spec function; leading whitespace
  changes no token.
- `external_links` renders external links, YouTube links as shortcodes.
- `vault` keeps notes and attachments by normalized name (the file name after
  the last `/`) and indexes the notes: indexing records every tag, link and
  backlink that the notes' tokens call for and nothing else, whatever the order
  of the notes; it keeps every note's name, and every recorded link names a note.
- `entries` decides which directories are skipped and which files are notes.
- `text`, `frontmatter` and `token_queue` hold the trusted wrappers around std,
  `yaml_rust` and `queues`.

`app/` is the command-line program: argument parsing, reading the vault from
disk and writing the output.
