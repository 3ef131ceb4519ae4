//! The lexing rules, as functions from a text and a position to what the lexer reads
//! there and where it stops. A rule that returns `None` stands for input on which the
//! lexer gives up (a link, a callout, a math span or a front matter that is not
//! closed as the lexer expects).

use vstd::prelude::*;
use yaml_rust::Yaml;
use crate::lexer::{TokenV, InternalLinkV, ExternalLinkV, CalloutV};
use crate::text::{self, char_at, slice, scan, lemma_scan, remaining};
use crate::frontmatter;

verus! {

/// Whether `c` is whitespace.
pub open spec fn ws(c: char) -> bool {
    text::is_white_space(c)
}

/// Scans stop at whitespace.
pub open spec fn stop_at_ws(cs: Seq<char>) -> spec_fn(int) -> bool {
    |j: int| ws(cs[j])
}

/// Scans stop at anything but whitespace.
pub open spec fn stop_at_non_ws(cs: Seq<char>) -> spec_fn(int) -> bool {
    |j: int| !ws(cs[j])
}

/// Scans stop at the character `c`.
pub open spec fn stop_at(cs: Seq<char>, c: char) -> spec_fn(int) -> bool {
    |j: int| cs[j] == c
}

/// Scans stop at anything but the character `c`.
pub open spec fn stop_at_other(cs: Seq<char>, c: char) -> spec_fn(int) -> bool {
    |j: int| cs[j] != c
}

/// A display math scan stops at `$$` or at the last character.
pub open spec fn stop_at_math_end(cs: Seq<char>) -> spec_fn(int) -> bool {
    |m: int| m + 1 >= cs.len() || (cs[m] == '$' && cs[m + 1] == '$')
}

/// A front matter scan stops at `---` or at the last two characters.
pub open spec fn stop_at_front_matter_end(cs: Seq<char>) -> spec_fn(int) -> bool {
    |m: int| m + 2 >= cs.len() || dashes_at(cs, m)
}

/// The whitespace that starts at `p`, and the position after it.
pub open spec fn lex_whitespace(cs: Seq<char>, p: int) -> (Seq<char>, int) {
    let e = scan(cs, p, stop_at_non_ws(cs));
    (slice(cs, p, e), e)
}

/// `#tag`: the characters after `#` up to whitespace or the end.
pub open spec fn lex_tag(cs: Seq<char>, p: int) -> (TokenV, int) {
    let e = scan(cs, p + 1, stop_at_ws(cs));
    (TokenV::Tag(slice(cs, p + 1, e)), e)
}

/// The fields of a link body, separated by `|`.
pub open spec fn split_bars(s: Seq<char>) -> Seq<Seq<char>>
    decreases s.len(),
{
    if s.len() == 0 {
        seq![seq![]]
    } else {
        let f = split_bars(s.drop_last());
        if s.last() == '|' {
            f.push(seq![])
        } else {
            f.update(f.len() - 1, f.last().push(s.last()))
        }
    }
}

/// `s` cut at its first `c`: the part before, and the part after if there is a `c`.
pub open spec fn split_once(s: Seq<char>, c: char) -> (Seq<char>, Option<Seq<char>>) {
    let k = scan(s, 0, stop_at(s, c));
    if k < s.len() {
        (s.subrange(0, k), Some(s.subrange(k + 1, s.len() as int)))
    } else {
        (s, None)
    }
}

/// `[[dest#position|options|label]]`, shown with a leading `!`. The lexer gives up
/// when the body is not closed by `]]` or has more than three fields.
pub open spec fn lex_internal_link(cs: Seq<char>, p: int) -> Option<(InternalLinkV, int)> {
    let shown = char_at(cs, p) == Some('!');
    let start = if shown { p + 3 } else { p + 2 };
    let j = scan(cs, start, stop_at(cs, ']'));
    let fields = split_bars(slice(cs, start, j));
    if !(j + 1 < cs.len() && cs[j + 1] == ']') || fields.len() > 3 {
        None
    } else {
        let (dest, position) = split_once(fields[0], '#');
        Some(
            (
                InternalLinkV {
                    dest,
                    position,
                    show_how: if fields.len() == 1 {
                        None
                    } else if fields.len() == 2 {
                        Some(fields[1])
                    } else {
                        Some(fields[2])
                    },
                    options: if fields.len() == 3 {
                        Some(fields[1])
                    } else {
                        None
                    },
                    render: shown,
                },
                j + 2,
            ),
        )
    }
}

/// Where the cursor stands after a scan for `close` from `i`: past the `close`, or one
/// past the end when there is none.
pub open spec fn past(cs: Seq<char>, k: int) -> int {
    if k < cs.len() {
        k + 1
    } else {
        cs.len() as int + 1
    }
}

/// `[label](url)`, rendered with a leading `!`. Without `(` after `]` the characters
/// read, up to the `]` (or to the end of the text), are a text; a link whose `)` never
/// comes falls back to the text `[` (and makes the lexer give up when it started with
/// `!`).
pub open spec fn lex_external_link(cs: Seq<char>, p: int) -> Option<(TokenV, int)> {
    let render = char_at(cs, p) == Some('!');
    let q = if render { p + 1 } else { p };
    let j = scan(cs, q + 1, stop_at(cs, ']'));
    let after = past(cs, j);
    if char_at(cs, after) != Some('(') {
        Some((TokenV::Text(slice(cs, p, if j < cs.len() { j + 1 } else { cs.len() as int })), after))
    } else {
        let k = scan(cs, after + 1, stop_at(cs, ')'));
        let after2 = past(cs, k);
        if k >= cs.len() {
            if char_at(cs, p) == Some('[') {
                Some((TokenV::Text(seq!['[']), p + 1))
            } else {
                None
            }
        } else {
            Some(
                (
                    TokenV::ExternalLink(
                        ExternalLinkV { url: slice(cs, after + 1, k), show_how: slice(cs, q + 1, j), render },
                    ),
                    after2,
                ),
            )
        }
    }
}

/// `$$...$$`; the lexer gives up when it is not closed by `$$`.
pub open spec fn lex_display_math(cs: Seq<char>, p: int) -> Option<(TokenV, int)> {
    let start = p + 2;
    let m = scan(cs, start, stop_at_math_end(cs));
    if m + 1 < cs.len() && cs[m] == '$' && cs[m + 1] == '$' {
        Some((TokenV::DisplayMath(slice(cs, start, m)), m + 2))
    } else {
        None
    }
}

/// `$...$`; the lexer gives up when it is not closed by `$`.
pub open spec fn lex_inline_math(cs: Seq<char>, p: int) -> Option<(TokenV, int)> {
    let start = p + 1;
    let m = scan(cs, start, stop_at(cs, '$'));
    if m < cs.len() {
        Some((TokenV::InlineMath(slice(cs, start, m)), m + 1))
    } else {
        None
    }
}

/// Every rule that reads a link or math moves past the position it starts at.
pub proof fn lemma_inline_rules_advance(cs: Seq<char>, p: int)
    requires
        0 <= p < cs.len(),
    ensures
        lex_internal_link(cs, p) matches Some((_, e)) ==> e > p,
        lex_external_link(cs, p) matches Some((_, e)) ==> e > p,
        lex_display_math(cs, p) matches Some((_, e)) ==> e > p,
        lex_inline_math(cs, p) matches Some((_, e)) ==> e > p,
{
    let shown = char_at(cs, p) == Some('!');
    let start = if shown { p + 3 } else { p + 2 };
    lemma_scan(cs, start, stop_at(cs, ']'));
    let render = char_at(cs, p) == Some('!');
    let q = if render { p + 1 } else { p };
    lemma_scan(cs, q + 1, stop_at(cs, ']'));
    let after = past(cs, scan(cs, q + 1, stop_at(cs, ']')));
    lemma_scan(cs, after + 1, stop_at(cs, ')'));
    lemma_scan(cs, p + 2, stop_at_math_end(cs));
    lemma_scan(cs, p + 1, stop_at(cs, '$'));
}

/// The rest of a line from `pos`: `toks` read so far and the text `s` under way. Every
/// link or math span closes the text before it (which may be empty); the line ends
/// with a text that takes the newline, or that ends the text without one.
pub open spec fn lex_line_loop(cs: Seq<char>, pos: int, toks: Seq<TokenV>, s: Seq<char>) -> Option<
    (Seq<TokenV>, int),
>
    decreases remaining(cs, pos),
{
    let c0 = char_at(cs, pos);
    let c1 = char_at(cs, pos + 1);
    let c2 = char_at(cs, pos + 2);
    if c0 is None {
        Some((toks.push(TokenV::Text(s)), pos))
    } else if c0 == Some('\n') {
        Some((toks.push(TokenV::Text(s.push('\n'))), pos + 1))
    } else {
        proof {
            lemma_inline_rules_advance(cs, pos);
        }
        if (c0 == Some('[') && c1 == Some('[')) || (c0 == Some('!') && c1 == Some('[') && c2 == Some('[')) {
            match lex_internal_link(cs, pos) {
                None => None,
                Some((l, e)) => lex_line_loop(
                    cs,
                    e,
                    toks.push(TokenV::Text(s)).push(TokenV::InternalLink(l)),
                    seq![],
                ),
            }
        } else if (c0 == Some('[') && c1 is Some) || (c0 == Some('!') && c1 == Some('[')) {
            match lex_external_link(cs, pos) {
                None => None,
                Some((t, e)) => lex_line_loop(cs, e, toks.push(TokenV::Text(s)).push(t), seq![]),
            }
        } else if c0 == Some('$') && c1 == Some('$') {
            match lex_display_math(cs, pos) {
                None => None,
                Some((t, e)) => lex_line_loop(cs, e, toks.push(TokenV::Text(s)).push(t), seq![]),
            }
        } else if c0 == Some('$') {
            match lex_inline_math(cs, pos) {
                None => None,
                Some((t, e)) => lex_line_loop(cs, e, toks.push(TokenV::Text(s)).push(t), seq![]),
            }
        } else {
            lex_line_loop(cs, pos + 1, toks, s.push(cs[pos]))
        }
    }
}

/// The line that starts at `p`.
pub open spec fn lex_line(cs: Seq<char>, p: int) -> Option<(Seq<TokenV>, int)> {
    lex_line_loop(cs, p, seq![], seq![])
}

/// A line ends at or after the position it starts at (after it, when a character is
/// there), and it ends with a text.
pub proof fn lemma_line_loop(cs: Seq<char>, pos: int, toks: Seq<TokenV>, s: Seq<char>)
    ensures
        lex_line_loop(cs, pos, toks, s) matches Some((l, e)) ==> e >= pos && (char_at(cs, pos) is Some
            ==> e > pos) && l.len() > toks.len() && l.last() is Text,
    decreases remaining(cs, pos),
{
    let c0 = char_at(cs, pos);
    let c1 = char_at(cs, pos + 1);
    let c2 = char_at(cs, pos + 2);
    if c0 is None || c0 == Some('\n') {
    } else {
        lemma_inline_rules_advance(cs, pos);
        if (c0 == Some('[') && c1 == Some('[')) || (c0 == Some('!') && c1 == Some('[') && c2 == Some('[')) {
            match lex_internal_link(cs, pos) {
                None => {},
                Some((l, e)) => lemma_line_loop(
                    cs,
                    e,
                    toks.push(TokenV::Text(s)).push(TokenV::InternalLink(l)),
                    seq![],
                ),
            }
        } else if (c0 == Some('[') && c1 is Some) || (c0 == Some('!') && c1 == Some('[')) {
            match lex_external_link(cs, pos) {
                None => {},
                Some((t, e)) => lemma_line_loop(cs, e, toks.push(TokenV::Text(s)).push(t), seq![]),
            }
        } else if c0 == Some('$') && c1 == Some('$') {
            match lex_display_math(cs, pos) {
                None => {},
                Some((t, e)) => lemma_line_loop(cs, e, toks.push(TokenV::Text(s)).push(t), seq![]),
            }
        } else if c0 == Some('$') {
            match lex_inline_math(cs, pos) {
                None => {},
                Some((t, e)) => lemma_line_loop(cs, e, toks.push(TokenV::Text(s)).push(t), seq![]),
            }
        } else {
            lemma_line_loop(cs, pos + 1, toks, s.push(cs[pos]));
        }
    }
}

/// `# header`: the number of `#`, then the line after the whitespace that follows.
pub open spec fn lex_header(cs: Seq<char>, p: int) -> Option<(TokenV, int)> {
    let h = scan(cs, p, stop_at_other(cs, '#'));
    let w = lex_whitespace(cs, h).1;
    match lex_line(cs, w) {
        None => None,
        Some((toks, e)) => Some((TokenV::Header((h - p) as usize, toks), e)),
    }
}

/// Quoted lines from `pos` on: each starts with `>`, whitespace after it is skipped.
pub open spec fn lex_quote_loop(cs: Seq<char>, pos: int, acc: Seq<TokenV>) -> Option<(Seq<TokenV>, int)>
    decreases remaining(cs, pos),
{
    if char_at(cs, pos) == Some('>') {
        let w = lex_whitespace(cs, pos + 1).1;
        proof {
            lemma_scan(cs, pos + 1, stop_at_non_ws(cs));
            lemma_line_loop(cs, w, seq![], seq![]);
        }
        match lex_line(cs, w) {
            None => None,
            Some((l, e)) => lex_quote_loop(cs, e, acc + l),
        }
    } else {
        Some((acc, pos))
    }
}

/// The quoted lines that start at `p`.
pub open spec fn lex_quote(cs: Seq<char>, p: int) -> Option<(Seq<TokenV>, int)> {
    lex_quote_loop(cs, p, seq![])
}

/// A title line without the newline that ends it.
pub open spec fn strip_newline(t: Seq<TokenV>) -> Seq<TokenV> {
    if t.len() > 0 && t.last() is Text && t.last()->Text_0.len() > 0 && t.last()->Text_0.last() == '\n' {
        t.drop_last().push(TokenV::Text(t.last()->Text_0.drop_last()))
    } else {
        t
    }
}

/// The title that a callout of kind `kind` gets when its first line has none: the kind
/// with its first character in upper case. Defined when that character is ASCII.
pub open spec fn default_title(kind: Seq<char>) -> Seq<char> {
    text::uppercase(kind.take(1)) + kind.skip(1)
}

/// `> [!kind]- title` and the quoted lines after it. The lexer gives up when `]` is
/// missing, and when the title is left out and the kind is empty or does not start
/// with an ASCII character.
pub open spec fn lex_callout(cs: Seq<char>, p: int) -> Option<(CalloutV, int)> {
    let q = lex_whitespace(cs, p + 1).1;
    let k = scan(cs, q + 2, stop_at(cs, ']'));
    if k >= cs.len() {
        None
    } else {
        let kind = text::lowercase(slice(cs, q + 2, k));
        let foldable = char_at(cs, k + 1) == Some('-');
        let f = if foldable { k + 2 } else { k + 1 };
        let w = lex_whitespace(cs, f).1;
        let title = if char_at(cs, w - 1) != Some('\n') {
            match lex_line(cs, w) {
                None => None,
                Some((t, e)) => Some((strip_newline(t), e)),
            }
        } else if kind.len() == 0 || kind[0] as u32 >= 0x80 {
            None
        } else {
            Some((seq![TokenV::Text(default_title(kind))], w))
        };
        match title {
            None => None,
            Some((title, e)) => match lex_quote(cs, e) {
                None => None,
                Some((contents, e2)) => Some((CalloutV { kind, title, contents, foldable }, e2)),
            },
        }
    }
}

/// A block of lines that start with `>`: a callout when `[!` follows the `>` and the
/// whitespace after it, a quote otherwise.
pub open spec fn lex_block(cs: Seq<char>, p: int) -> Option<(TokenV, int)> {
    let q = scan(cs, p + 1, stop_at_non_ws(cs));
    if char_at(cs, q) == Some('[') && char_at(cs, q + 1) == Some('!') {
        match lex_callout(cs, p) {
            None => None,
            Some((c, e)) => Some((TokenV::Callout(c), e)),
        }
    } else {
        match lex_quote(cs, p) {
            None => None,
            Some((t, e)) => Some((TokenV::Quote(t), e)),
        }
    }
}

/// Whether `---` starts at `m`.
pub open spec fn dashes_at(cs: Seq<char>, m: int) -> bool {
    char_at(cs, m) == Some('-') && char_at(cs, m + 1) == Some('-') && char_at(cs, m + 2) == Some('-')
}

/// The YAML front matter between the `---` at `p` and the next `---`. Text that is
/// no YAML, or holds no document, gives an empty text; a document that is not closed
/// by `---` makes the lexer give up.
pub open spec fn lex_front_matter(cs: Seq<char>, p: int) -> Option<(TokenV, int)> {
    let start = p + 3;
    let m = scan(cs, start, stop_at_front_matter_end(cs));
    match frontmatter::yaml_documents(slice(cs, start, m)) {
        Err(_) => Some((TokenV::Text(seq![]), m)),
        Ok(docs) => if docs.len() == 0 {
            Some((TokenV::Text(seq![]), m))
        } else if dashes_at(cs, m) {
            Some((TokenV::Frontmatter(docs[0]), m + 3))
        } else {
            None
        },
    }
}

/// A divider: `---`, more dashes, spaces, then a newline or the end of the text.
pub open spec fn lex_divider(cs: Seq<char>, p: int) -> Option<(TokenV, int)> {
    let d = scan(cs, p + 3, stop_at_other(cs, '-'));
    let s = scan(cs, d, stop_at_other(cs, ' '));
    if char_at(cs, s) is None || char_at(cs, s) == Some('\n') {
        Some((TokenV::Divider, s + 1))
    } else {
        None
    }
}

/// The state of the lexer over a fixed text.
pub struct LexState {
    pub cursor: int,
    pub first: bool,
    pub queue: Seq<TokenV>,
}

/// A token read on its own, with nothing read ahead.
pub open spec fn alone(r: Option<(TokenV, int)>) -> Option<(TokenV, int, Seq<TokenV>)> {
    match r {
        None => None,
        Some((t, e)) => Some((t, e, Seq::<TokenV>::empty())),
    }
}

/// What the next token read at a position is, and where the lexer then stands
/// (with the tokens of a line that it reads ahead).
pub open spec fn lex_token_at(cs: Seq<char>, p: int, first: bool) -> Option<(TokenV, int, Seq<TokenV>)> {
    let c = cs[p];
    let p1 = char_at(cs, p + 1);
    let p2 = char_at(cs, p + 2);
    if c == '#' {
        if p1 == Some(' ') || p1 == Some('#') {
            alone(lex_header(cs, p))
        } else {
            alone(Some(lex_tag(cs, p)))
        }
    } else if c == '>' {
        alone(lex_block(cs, p))
    } else if c == '-' && first && p1 == Some('-') && p2 == Some('-') {
        alone(lex_front_matter(cs, p))
    } else if c == '-' && p1 == Some('-') && p2 == Some('-') {
        alone(lex_divider(cs, p))
    } else if c == '$' && p1 == Some('$') {
        alone(lex_display_math(cs, p))
    } else if c == '$' {
        alone(lex_inline_math(cs, p))
    } else if ws(c) {
        let (w, e) = lex_whitespace(cs, p);
        Some((TokenV::Text(w), e, Seq::<TokenV>::empty()))
    } else {
        match lex_line(cs, p) {
            None => None,
            Some((toks, e)) => Some((toks[0], e, toks.drop_first())),
        }
    }
}

/// One step of the lexer: the token it hands out (none at the end of the text) and
/// the state after it; `None` when the lexer gives up.
pub open spec fn lex_next(cs: Seq<char>, st: LexState) -> Option<(Option<TokenV>, LexState)> {
    if st.queue.len() > 0 {
        Some((Some(st.queue[0]), LexState { queue: st.queue.drop_first(), ..st }))
    } else if char_at(cs, st.cursor) is None {
        Some((None, st))
    } else {
        match lex_token_at(cs, st.cursor, st.first) {
            None => None,
            Some((t, e, q)) => Some((Some(t), LexState { cursor: e, first: false, queue: q })),
        }
    }
}

} // verus!

verus! {

/// Quoted lines end at or after where they start, and after it when there is a `>`.
pub proof fn lemma_quote_loop(cs: Seq<char>, pos: int, acc: Seq<TokenV>)
    ensures
        lex_quote_loop(cs, pos, acc) matches Some((_, e)) ==> e >= pos && (char_at(cs, pos) == Some('>')
            ==> e > pos),
    decreases remaining(cs, pos),
{
    if char_at(cs, pos) == Some('>') {
        let w = lex_whitespace(cs, pos + 1).1;
        lemma_scan(cs, pos + 1, stop_at_non_ws(cs));
        lemma_line_loop(cs, w, seq![], seq![]);
        match lex_line(cs, w) {
            None => {},
            Some((l, e)) => lemma_quote_loop(cs, e, acc + l),
        }
    }
}

/// Every token read from the text moves the lexer past the position it starts at.
pub proof fn lemma_token_at_advances(cs: Seq<char>, p: int, first: bool)
    requires
        0 <= p < cs.len(),
    ensures
        lex_token_at(cs, p, first) matches Some((_, e, _)) ==> e > p,
{
    lemma_inline_rules_advance(cs, p);
    // headers
    let h = scan(cs, p, stop_at_other(cs, '#'));
    lemma_scan(cs, p, stop_at_other(cs, '#'));
    lemma_scan(cs, h, stop_at_non_ws(cs));
    lemma_line_loop(cs, lex_whitespace(cs, h).1, seq![], seq![]);
    // tags
    lemma_scan(cs, p + 1, stop_at_ws(cs));
    // blocks
    lemma_quote_loop(cs, p, seq![]);
    let q = lex_whitespace(cs, p + 1).1;
    lemma_scan(cs, p + 1, stop_at_non_ws(cs));
    let k = scan(cs, q + 2, stop_at(cs, ']'));
    lemma_scan(cs, q + 2, stop_at(cs, ']'));
    let f = if char_at(cs, k + 1) == Some('-') { k + 2 } else { k + 1 };
    let w = lex_whitespace(cs, f).1;
    lemma_scan(cs, f, stop_at_non_ws(cs));
    lemma_line_loop(cs, w, seq![], seq![]);
    match lex_line(cs, w) {
        Some((t, e)) => lemma_quote_loop(cs, e, seq![]),
        None => {},
    }
    lemma_quote_loop(cs, w, seq![]);
    // front matter and dividers
    lemma_scan(cs, p + 3, stop_at_front_matter_end(cs));
    lemma_scan(cs, p + 3, stop_at_other(cs, '-'));
    let d = scan(cs, p + 3, stop_at_other(cs, '-'));
    lemma_scan(cs, d, stop_at_other(cs, ' '));
    // whitespace and lines
    lemma_scan(cs, p, stop_at_non_ws(cs));
    lemma_line_loop(cs, p, seq![], seq![]);
}

/// The lexer moves forward: every token it hands out either takes text from the input
/// or is one of the tokens it read ahead.
pub proof fn lemma_next_progress(cs: Seq<char>, st: LexState)
    ensures
        lex_next(cs, st) matches Some((Some(_), st2)) ==> remaining(cs, st2.cursor) < remaining(cs, st.cursor)
            || (remaining(cs, st2.cursor) == remaining(cs, st.cursor) && st2.queue.len() < st.queue.len()),
{
    if st.queue.len() == 0 && char_at(cs, st.cursor) is Some {
        lemma_token_at_advances(cs, st.cursor, st.first);
    }
}

/// All tokens the lexer hands out from state `st` on, up to the end of the text;
/// `None` when it gives up on the way.
pub open spec fn lex_all(cs: Seq<char>, st: LexState) -> Option<Seq<TokenV>>
    decreases remaining(cs, st.cursor), st.queue.len(),
{
    match lex_next(cs, st) {
        None => None,
        Some((None, _)) => Some(seq![]),
        Some((Some(t), st2)) => {
            proof {
                lemma_next_progress(cs, st);
            }
            match lex_all(cs, st2) {
                None => None,
                Some(rest) => Some(seq![t] + rest),
            }
        },
    }
}

} // verus!

verus! {

/// No token of `s` is a front matter.
pub open spec fn no_front_matter(s: Seq<TokenV>) -> bool {
    forall|i: int| 0 <= i < s.len() ==> !(#[trigger] s[i] is Frontmatter)
}

/// Adding the text `s` and a token that is no front matter to tokens without front
/// matter leaves them without front matter.
proof fn lemma_push_no_front_matter(toks: Seq<TokenV>, s: Seq<char>, t: TokenV)
    requires
        no_front_matter(toks),
        !(t is Frontmatter),
    ensures
        no_front_matter(toks.push(TokenV::Text(s)).push(t)),
{
    let t2 = toks.push(TokenV::Text(s)).push(t);
    assert forall|i: int| 0 <= i < t2.len() implies !(#[trigger] t2[i] is Frontmatter) by {
        if i < toks.len() {
            assert(t2[i] == toks[i]);
        }
    }
}

/// A line holds no front matter.
pub proof fn lemma_line_no_front_matter(cs: Seq<char>, pos: int, toks: Seq<TokenV>, s: Seq<char>)
    requires
        no_front_matter(toks),
    ensures
        lex_line_loop(cs, pos, toks, s) matches Some((l, _)) ==> no_front_matter(l),
    decreases remaining(cs, pos),
{
    let c0 = char_at(cs, pos);
    let c1 = char_at(cs, pos + 1);
    let c2 = char_at(cs, pos + 2);
    if c0 is None || c0 == Some('\n') {
        let l = if c0 is None { toks.push(TokenV::Text(s)) } else { toks.push(TokenV::Text(s.push('\n'))) };
        assert forall|i: int| 0 <= i < l.len() implies !(#[trigger] l[i] is Frontmatter) by {
            if i < toks.len() {
                assert(l[i] == toks[i]);
            }
        }
    } else {
        lemma_inline_rules_advance(cs, pos);
        let next = |t: TokenV| toks.push(TokenV::Text(s)).push(t);
        if (c0 == Some('[') && c1 == Some('[')) || (c0 == Some('!') && c1 == Some('[') && c2 == Some('[')) {
            match lex_internal_link(cs, pos) {
                None => {},
                Some((l, e)) => {
                    let t2 = next(TokenV::InternalLink(l));
                    lemma_push_no_front_matter(toks, s, TokenV::InternalLink(l));
                    lemma_line_no_front_matter(cs, e, t2, seq![]);
                },
            }
        } else if (c0 == Some('[') && c1 is Some) || (c0 == Some('!') && c1 == Some('[')) {
            match lex_external_link(cs, pos) {
                None => {},
                Some((t, e)) => {
                    let t2 = next(t);
                    lemma_push_no_front_matter(toks, s, t);
                    lemma_line_no_front_matter(cs, e, t2, seq![]);
                },
            }
        } else if c0 == Some('$') && c1 == Some('$') {
            match lex_display_math(cs, pos) {
                None => {},
                Some((t, e)) => {
                    let t2 = next(t);
                    lemma_push_no_front_matter(toks, s, t);
                    lemma_line_no_front_matter(cs, e, t2, seq![]);
                },
            }
        } else if c0 == Some('$') {
            match lex_inline_math(cs, pos) {
                None => {},
                Some((t, e)) => {
                    let t2 = next(t);
                    lemma_push_no_front_matter(toks, s, t);
                    lemma_line_no_front_matter(cs, e, t2, seq![]);
                },
            }
        } else {
            lemma_line_no_front_matter(cs, pos + 1, toks, s.push(cs[pos]));
        }
    }
}

/// Once a token has been read, the lexer reads no front matter: neither as the token
/// nor among the tokens it reads ahead.
pub proof fn lemma_token_at_no_front_matter(cs: Seq<char>, p: int, first: bool)
    requires
        0 <= p < cs.len(),
    ensures
        lex_token_at(cs, p, first) matches Some((t, _, q)) ==> no_front_matter(q) && (!first ==> !(t is Frontmatter)),
{
    lemma_line_no_front_matter(cs, p, seq![], seq![]);
    match lex_line(cs, p) {
        Some((toks, e)) => {
            lemma_line_loop(cs, p, seq![], seq![]);
            let q = toks.drop_first();
            assert forall|i: int| 0 <= i < q.len() implies !(#[trigger] q[i] is Frontmatter) by {
                assert(q[i] == toks[i + 1]);
            }
        },
        None => {},
    }
}

/// From a state after the first token, with no front matter read ahead, the lexer
/// hands out no front matter.
pub proof fn lemma_all_no_front_matter(cs: Seq<char>, st: LexState)
    requires
        !st.first,
        no_front_matter(st.queue),
    ensures
        lex_all(cs, st) matches Some(ts) ==> no_front_matter(ts),
    decreases remaining(cs, st.cursor), st.queue.len(),
{
    lemma_next_progress(cs, st);
    match lex_next(cs, st) {
        None => {},
        Some((None, _)) => {},
        Some((Some(t), st2)) => {
            if st.queue.len() > 0 {
                assert(!(st.queue[0] is Frontmatter));
                assert forall|i: int| 0 <= i < st2.queue.len() implies !(#[trigger] st2.queue[i] is Frontmatter) by {
                    assert(st2.queue[i] == st.queue[i + 1]);
                }
            } else {
                lemma_token_at_no_front_matter(cs, st.cursor, st.first);
            }
            lemma_all_no_front_matter(cs, st2);
            match lex_all(cs, st2) {
                None => {},
                Some(rest) => {
                    let ts = seq![t] + rest;
                    assert forall|i: int| 0 <= i < ts.len() implies !(#[trigger] ts[i] is Frontmatter) by {
                        if i > 0 {
                            assert(ts[i] == rest[i - 1]);
                        }
                    }
                },
            }
        },
    }
}

/// A front matter can only be the first token of a note.
pub proof fn lemma_front_matter_only_first(cs: Seq<char>)
    ensures
        lex_all(cs, LexState { cursor: 0, first: true, queue: seq![] }) matches Some(ts) ==> forall|i: int|
            0 < i < ts.len() ==> !(#[trigger] ts[i] is Frontmatter),
{
    let st = LexState { cursor: 0, first: true, queue: seq![] };
    lemma_next_progress(cs, st);
    match lex_next(cs, st) {
        Some((Some(t), st2)) => {
            lemma_token_at_no_front_matter(cs, 0, true);
            lemma_all_no_front_matter(cs, st2);
            match lex_all(cs, st2) {
                None => {},
                Some(rest) => {
                    let ts = seq![t] + rest;
                    assert forall|i: int| 0 < i < ts.len() implies !(#[trigger] ts[i] is Frontmatter) by {
                        assert(ts[i] == rest[i - 1]);
                    }
                },
            }
        },
        _ => {},
    }
}

/// The lexer hands out nothing exactly when nothing is read ahead and the text is
/// used up; it then stays where it is, so every later step hands out nothing too.
pub proof fn lemma_next_end(cs: Seq<char>, st: LexState)
    requires
        0 <= st.cursor,
    ensures
        (lex_next(cs, st) matches Some((None, _))) <==> st.queue.len() == 0 && st.cursor >= cs.len(),
        lex_next(cs, st) matches Some((None, st2)) ==> st2 == st,
{
}

/// The states a lexer goes through: at the first token nothing is read ahead; after it,
/// nothing read ahead is a front matter.
pub open spec fn lex_state_ok(st: LexState) -> bool {
    &&& 0 <= st.cursor
    &&& st.first ==> st.queue.len() == 0
    &&& !st.first ==> no_front_matter(st.queue)
}

/// Every step keeps `lex_state_ok`; a step that hands out a token leaves the first
/// token behind; and after the first token no step hands out a front matter. So of the
/// tokens that repeated steps hand out from the start, only the first can be a front
/// matter.
pub proof fn lemma_next_front_matter_only_first(cs: Seq<char>, st: LexState)
    requires
        lex_state_ok(st),
    ensures
        lex_next(cs, st) matches Some((t, st2)) ==> lex_state_ok(st2)
            && (t is Some ==> !st2.first)
            && (!st.first ==> !(t matches Some(tv) && tv is Frontmatter)),
{
    if st.queue.len() > 0 {
        let q = st.queue.drop_first();
        assert(!(st.queue[0] is Frontmatter));
        assert forall|i: int| 0 <= i < q.len() implies !(#[trigger] q[i] is Frontmatter) by {
            assert(q[i] == st.queue[i + 1]);
        }
    } else if char_at(cs, st.cursor) is Some {
        lemma_token_at_no_front_matter(cs, st.cursor, st.first);
        lemma_token_at_advances(cs, st.cursor, st.first);
    }
}

/// Characters that go into a line's text as they are: no newline, `$`, `[` or `!`.
pub open spec fn plain_run(s: Seq<char>) -> bool {
    forall|j: int| 0 <= j < s.len() ==> s[j] != '\n' && s[j] != '$' && s[j] != '[' && s[j] != '!'
}

/// A run of plain characters is added to the text under way.
proof fn lemma_plain_run(cs: Seq<char>, p: int, n: int, toks: Seq<TokenV>, s: Seq<char>)
    requires
        0 <= p,
        0 <= n,
        p + n <= cs.len(),
        plain_run(cs.subrange(p, p + n)),
    ensures
        lex_line_loop(cs, p, toks, s) == lex_line_loop(cs, p + n, toks, s + cs.subrange(p, p + n)),
    decreases n,
{
    if n > 0 {
        assert(cs.subrange(p, p + n)[0] == cs[p]);
        assert(plain_run(cs.subrange(p + 1, p + n))) by {
            assert forall|j: int| 0 <= j < n - 1 implies #[trigger] cs.subrange(p + 1, p + n)[j] == cs.subrange(p, p + n)[j + 1] by {}
        }
        lemma_plain_run(cs, p + 1, n - 1, toks, s.push(cs[p]));
        assert(s.push(cs[p]) + cs.subrange(p + 1, p + n) =~= s + cs.subrange(p, p + n));
    } else {
        assert(s + cs.subrange(p, p) =~= s);
    }
}

/// The inline math span `$m$` at `p`, for a non-empty `m` without `$`.
proof fn lemma_inline_math_at(cs: Seq<char>, p: int, m: Seq<char>)
    requires
        0 <= p,
        p + m.len() + 2 <= cs.len(),
        cs[p] == '$',
        cs.subrange(p + 1, p + 1 + m.len()) == m,
        cs[p + 1 + m.len()] == '$',
        forall|j: int| 0 <= j < m.len() ==> m[j] != '$',
    ensures
        lex_inline_math(cs, p) == Some((TokenV::InlineMath(m), p + m.len() + 2)),
{
    let nm = m.len() as int;
    let st = stop_at(cs, '$');
    text::lemma_scan(cs, p + 1, st);
    let k = scan(cs, p + 1, st);
    assert forall|j: int| p + 1 <= j < p + 1 + nm implies #[trigger] cs[j] != '$' by {
        assert(cs[j] == cs.subrange(p + 1, p + 1 + nm)[j - p - 1]);
    }
    if k < p + 1 + nm {
        assert(cs[k] != '$');
        assert(!st(k));
    }
    assert(st(p + 1 + nm));
    assert(k == p + 1 + nm);
}

/// At a `$` followed by something else than `$`, a line reads an inline math span.
proof fn lemma_line_at_inline_math(cs: Seq<char>, p: int, toks: Seq<TokenV>, s: Seq<char>, t: TokenV, e: int)
    requires
        0 <= p,
        p + 1 < cs.len(),
        cs[p] == '$',
        cs[p + 1] != '$',
        lex_inline_math(cs, p) == Some((t, e)),
    ensures
        lex_line_loop(cs, p, toks, s) == lex_line_loop(cs, e, toks.push(TokenV::Text(s)).push(t), seq![]),
{
}

/// Inside a line, `$` that is not followed by `$` starts an inline math span that
/// runs to the next `$`: the line `a$m$b` followed by a newline, with plain `a` and
/// `b` and a non-empty `m` without `$`, is the text `a`, the math `m` and the text `b`
/// with the newline, and the line takes all of it.
pub proof fn lemma_line_inline_math(a: Seq<char>, m: Seq<char>, b: Seq<char>)
    requires
        plain_run(a),
        plain_run(b),
        m.len() > 0,
        forall|j: int| 0 <= j < m.len() ==> m[j] != '$',
    ensures
        lex_line(a + seq!['$'] + m + seq!['$'] + b + seq!['\n'], 0) == Some(
            (
                seq![TokenV::Text(a), TokenV::InlineMath(m), TokenV::Text(b.push('\n'))],
                (a.len() + m.len() + b.len() + 3) as int,
            ),
        ),
{
    let cs = a + seq!['$'] + m + seq!['$'] + b + seq!['\n'];
    let na = a.len() as int;
    let nm = m.len() as int;
    let nb = b.len() as int;
    let e = na + nm + 2;
    assert(cs.len() == na + nm + nb + 3);
    assert(cs.subrange(0, na) =~= a);
    assert(cs[na] == '$');
    assert(cs[na + 1] == m[0]);
    assert(cs.subrange(na + 1, na + 1 + nm) =~= m);
    assert(cs[na + 1 + nm] == '$');
    assert(cs.subrange(e, e + nb) =~= b);
    assert(cs[e + nb] == '\n');
    lemma_plain_run(cs, 0, na, seq![], seq![]);
    assert(seq![] + a =~= a);
    lemma_inline_math_at(cs, na, m);
    let toks = seq![TokenV::Text(a), TokenV::InlineMath(m)];
    lemma_line_at_inline_math(cs, na, seq![], a, TokenV::InlineMath(m), e);
    assert(seq![].push(TokenV::Text(a)).push(TokenV::InlineMath(m)) =~= toks);
    lemma_plain_run(cs, e, nb, toks, seq![]);
    assert(seq![] + b =~= b);
    assert(toks.push(TokenV::Text(b.push('\n'))) =~= seq![TokenV::Text(a), TokenV::InlineMath(m), TokenV::Text(b.push('\n'))]);
}

} // verus!
