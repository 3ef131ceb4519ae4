//! Conversion of Obsidian notes to Hugo-friendly markdown: a lexer for
//! Obsidian markdown, a tokenizer for LaTeX snippets and helpers that
//! render links.

pub mod text;
pub mod latex;
pub mod frontmatter;
pub mod token_queue;
pub mod lexer;
pub mod lexing;
pub mod external_links;
pub mod vault;
pub mod entries;
pub mod cli;
