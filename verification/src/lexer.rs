//! A lexer for Obsidian-flavoured markdown.

use vstd::prelude::*;
use yaml_rust::Yaml;
use queues::Queue;
use crate::text::{self, push_char, char_is_whitespace};
use crate::lexing::{self, LexState};
use crate::token_queue::{queued, queue_new, queue_add, queue_remove, queue_size};
use crate::frontmatter::yaml_clone;

verus! {

#[verifier::external_type_specification]
#[verifier::external_body]
pub struct ExIoError(std::io::Error);

#[verifier::external_type_specification]
#[verifier::external_body]
pub struct ExFromUtf8Error(std::string::FromUtf8Error);

/// Why a note could not be read.
#[derive(Debug)]
pub enum LexerError {
    Io(std::io::Error),
    Utf(std::string::FromUtf8Error),
}

/// `[label](url)` or, rendered, `![label](url)`.
#[derive(Debug, PartialEq)]
pub struct ExternalLink {
    pub url: String,
    pub show_how: String,
    pub render: bool,
}

/// `[[dest#position|options|label]]` or, rendered, `![[...]]`.
#[derive(Debug, PartialEq)]
pub struct InternalLink {
    pub dest: String,
    pub position: Option<String>,
    pub show_how: Option<String>,
    pub options: Option<String>,
    pub render: bool,
}

/// `> [!kind]- title` followed by quoted lines.
#[derive(Debug, PartialEq)]
pub struct Callout {
    pub kind: String,
    pub title: Vec<Token>,
    pub contents: Vec<Token>,
    pub foldable: bool,
}

#[derive(Debug, PartialEq)]
pub enum Token {
    Text(String),
    Tag(String),
    Header(usize, Vec<Token>),
    InternalLink(InternalLink),
    ExternalLink(ExternalLink),
    Callout(Callout),
    Quote(Vec<Token>),
    Frontmatter(Yaml),  // This can only appear as the first token
    InlineMath(String),
    DisplayMath(String),
    Divider,
}

/// The value of an external link.
pub struct ExternalLinkV {
    pub url: Seq<char>,
    pub show_how: Seq<char>,
    pub render: bool,
}

/// The value of an internal link.
pub struct InternalLinkV {
    pub dest: Seq<char>,
    pub position: Option<Seq<char>>,
    pub show_how: Option<Seq<char>>,
    pub options: Option<Seq<char>>,
    pub render: bool,
}

/// The value of a callout.
pub struct CalloutV {
    pub kind: Seq<char>,
    pub title: Seq<TokenV>,
    pub contents: Seq<TokenV>,
    pub foldable: bool,
}

/// The value of a token: its strings as sequences of characters.
pub enum TokenV {
    Text(Seq<char>),
    Tag(Seq<char>),
    Header(usize, Seq<TokenV>),
    InternalLink(InternalLinkV),
    ExternalLink(ExternalLinkV),
    Callout(CalloutV),
    Quote(Seq<TokenV>),
    Frontmatter(Yaml),
    InlineMath(Seq<char>),
    DisplayMath(Seq<char>),
    Divider,
}

/// The characters of an optional string.
pub open spec fn opt_chars(o: Option<String>) -> Option<Seq<char>> {
    match o {
        Some(s) => Some(s@),
        None => None,
    }
}

impl View for ExternalLink {
    type V = ExternalLinkV;

    open spec fn view(&self) -> ExternalLinkV {
        ExternalLinkV { url: self.url@, show_how: self.show_how@, render: self.render }
    }
}

impl View for InternalLink {
    type V = InternalLinkV;

    open spec fn view(&self) -> InternalLinkV {
        InternalLinkV {
            dest: self.dest@,
            position: opt_chars(self.position),
            show_how: opt_chars(self.show_how),
            options: opt_chars(self.options),
            render: self.render,
        }
    }
}

/// The value of a token, by recursion over its structure.
pub open spec fn token_view(t: Token) -> TokenV
    decreases t,
{
    match t {
        Token::Text(s) => TokenV::Text(s@),
        Token::Tag(s) => TokenV::Tag(s@),
        Token::Header(level, v) => TokenV::Header(
            level,
            Seq::new(v@.len(), |i: int| if 0 <= i < v@.len() { token_view(v@[i]) } else { TokenV::Divider }),
        ),
        Token::InternalLink(l) => TokenV::InternalLink(l@),
        Token::ExternalLink(l) => TokenV::ExternalLink(l@),
        Token::Callout(c) => TokenV::Callout(
            CalloutV {
                kind: c.kind@,
                title: Seq::new(
                    c.title@.len(),
                    |i: int| if 0 <= i < c.title@.len() { token_view(c.title@[i]) } else { TokenV::Divider },
                ),
                contents: Seq::new(
                    c.contents@.len(),
                    |i: int|
                        if 0 <= i < c.contents@.len() {
                            token_view(c.contents@[i])
                        } else {
                            TokenV::Divider
                        },
                ),
                foldable: c.foldable,
            },
        ),
        Token::Quote(v) => TokenV::Quote(
            Seq::new(v@.len(), |i: int| if 0 <= i < v@.len() { token_view(v@[i]) } else { TokenV::Divider }),
        ),
        Token::Frontmatter(y) => TokenV::Frontmatter(y),
        Token::InlineMath(s) => TokenV::InlineMath(s@),
        Token::DisplayMath(s) => TokenV::DisplayMath(s@),
        Token::Divider => TokenV::Divider,
    }
}

impl View for Token {
    type V = TokenV;

    open spec fn view(&self) -> TokenV {
        token_view(*self)
    }
}

/// The values of a sequence of tokens.
pub open spec fn tokens_view(s: Seq<Token>) -> Seq<TokenV> {
    s.map_values(|t: Token| t@)
}

/// The nested tokens of a token are the values of its vectors.
pub proof fn lemma_token_view(t: Token)
    ensures
        t matches Token::Header(l, v) ==> t@ == TokenV::Header(l, tokens_view(v@)),
        t matches Token::Quote(v) ==> t@ == TokenV::Quote(tokens_view(v@)),
        t matches Token::Callout(c) ==> t@ == TokenV::Callout(
            CalloutV {
                kind: c.kind@,
                title: tokens_view(c.title@),
                contents: tokens_view(c.contents@),
                foldable: c.foldable,
            },
        ),
{
    match t {
        Token::Header(l, v) => {
            assert(tokens_view(v@) =~= t@->Header_1);
        },
        Token::Quote(v) => {
            assert(tokens_view(v@) =~= t@->Quote_0);
        },
        Token::Callout(c) => {
            assert(tokens_view(c.title@) =~= t@->Callout_0.title);
            assert(tokens_view(c.contents@) =~= t@->Callout_0.contents);
        },
        _ => {},
    }
}

impl ExternalLink {
    /// What the link shows: its label, or its url when the label is empty.
    pub fn label(&self) -> (l: &str)
        ensures
            l@ == (if self.show_how@.len() == 0 { self.url@ } else { self.show_how@ }),
    {
        if self.show_how.as_str().is_empty() {
            self.url.as_str()
        } else {
            self.show_how.as_str()
        }
    }
}

/// What an internal link shows: its label if it has one, else its destination,
/// followed by `>` and the position when there is one.
pub open spec fn internal_label(l: InternalLinkV) -> Seq<char> {
    match l.show_how {
        Some(s) => s,
        None => match l.position {
            Some(pos) => l.dest + seq!['>'] + pos,
            None => l.dest,
        },
    }
}

impl InternalLink {
    /// What the link shows: see `internal_label`.
    pub fn label(&self) -> (l: String)
        ensures
            l@ == internal_label(self@),
    {
        match &self.show_how {
            Some(s) => return s.clone(),
            None => {},
        }
        let l = self.dest.clone();
        match &self.position {
            Some(pos) => {
                let mut r = l;
                push_char(&mut r, '>');
                r.append(pos.as_str());
                r
            },
            None => l,
        }
    }
}

/// Whether a token is text made of whitespace only.
pub open spec fn token_is_whitespace(t: TokenV) -> bool {
    match t {
        TokenV::Text(s) => all_white_space(s),
        _ => false,
    }
}

/// Whether every character of `s` is whitespace.
pub open spec fn all_white_space(s: Seq<char>) -> bool {
    forall|i: int| 0 <= i < s.len() ==> #[trigger] text::is_white_space(s[i])
}

impl Token {
    /// Whether the token is text made of whitespace only (the empty text included).
    pub fn is_whitespace(&self) -> (b: bool)
        ensures
            b == token_is_whitespace(self@),
    {
        match self {
            Token::Text(t) => {
                assert(self@ == TokenV::Text(t@));
                let cs = text::chars_of(t.as_str());
                let mut i: usize = 0;
                while i < cs.len()
                    invariant
                        cs@ == t@,
                        self@ == TokenV::Text(t@),
                        i <= cs@.len(),
                        forall|k: int| 0 <= k < i ==> #[trigger] text::is_white_space(cs@[k]),
                    decreases cs.len() - i,
                {
                    if !char_is_whitespace(cs[i]) {
                        assert(!text::is_white_space(t@[i as int]));
                        assert(!all_white_space(t@));
                        return false;
                    }
                    i = i + 1;
                }
                true
            },
            Token::Tag(_) => false,
            Token::Header(_, _) => false,
            Token::InternalLink(_) => false,
            Token::ExternalLink(_) => false,
            Token::Callout(_) => false,
            Token::Quote(_) => false,
            Token::Frontmatter(_) => false,
            Token::Divider => false,
            Token::InlineMath(_) => false,
            Token::DisplayMath(_) => false,
        }
    }
}

fn clone_opt_string(o: &Option<String>) -> (r: Option<String>)
    ensures
        opt_chars(r) == opt_chars(*o),
{
    match o {
        Some(s) => Some(s.clone()),
        None => None,
    }
}

impl Clone for ExternalLink {
    fn clone(&self) -> (r: Self)
        ensures
            r@ == self@,
    {
        ExternalLink { url: self.url.clone(), show_how: self.show_how.clone(), render: self.render }
    }
}

impl Clone for InternalLink {
    fn clone(&self) -> (r: Self)
        ensures
            r@ == self@,
    {
        InternalLink {
            dest: self.dest.clone(),
            position: clone_opt_string(&self.position),
            show_how: clone_opt_string(&self.show_how),
            options: clone_opt_string(&self.options),
            render: self.render,
        }
    }
}

impl Clone for Callout {
    fn clone(&self) -> (r: Self)
        ensures
            r.kind@ == self.kind@,
            tokens_view(r.title@) == tokens_view(self.title@),
            tokens_view(r.contents@) == tokens_view(self.contents@),
            r.foldable == self.foldable,
    {
        Callout {
            kind: self.kind.clone(),
            title: clone_tokens(&self.title),
            contents: clone_tokens(&self.contents),
            foldable: self.foldable,
        }
    }
}

/// A copy of a vector of tokens, token by token.
pub(crate) fn clone_tokens(v: &Vec<Token>) -> (r: Vec<Token>)
    ensures
        tokens_view(r@) == tokens_view(v@),
    decreases v,
{
    let mut r: Vec<Token> = Vec::new();
    let mut i: usize = 0;
    while i < v.len()
        invariant
            i <= v@.len(),
            tokens_view(r@) == tokens_view(v@.take(i as int)),
        decreases v@.len() - i,
    {
        let ghost before = r@;
        let t = v[i].clone();
        r.push(t);
        assert(tokens_view(r@) =~= tokens_view(before).push(t@));
        assert(v@.take(i + 1) =~= v@.take(i as int).push(v@[i as int]));
        assert(tokens_view(v@.take(i + 1)) =~= tokens_view(v@.take(i as int)).push(v@[i as int]@));
        i = i + 1;
    }
    assert(v@.take(v@.len() as int) =~= v@);
    r
}

impl Clone for Token {
    fn clone(&self) -> (r: Self)
        ensures
            r@ == self@,
        decreases self,
    {
        proof {
            lemma_token_view(*self);
        }
        let r = match self {
            Token::Text(s) => Token::Text(s.clone()),
            Token::Tag(s) => Token::Tag(s.clone()),
            Token::Header(l, v) => Token::Header(*l, clone_tokens(v)),
            Token::InternalLink(l) => Token::InternalLink(l.clone()),
            Token::ExternalLink(l) => Token::ExternalLink(l.clone()),
            Token::Callout(c) => Token::Callout(
                Callout {
                    kind: c.kind.clone(),
                    title: clone_tokens(&c.title),
                    contents: clone_tokens(&c.contents),
                    foldable: c.foldable,
                },
            ),
            Token::Quote(v) => Token::Quote(clone_tokens(v)),
            Token::Frontmatter(y) => Token::Frontmatter(yaml_clone(y)),
            Token::InlineMath(s) => Token::InlineMath(s.clone()),
            Token::DisplayMath(s) => Token::DisplayMath(s.clone()),
            Token::Divider => Token::Divider,
        };
        proof {
            lemma_token_view(r);
        }
        r
    }
}


/// The lexer met input on which it gives up: a link, a callout, a math span or a
/// front matter that is not closed the way the lexer expects.
#[derive(Debug, PartialEq, Eq, Clone, Copy)]
pub struct LexFault;

/// A lexer over the characters of a note.
pub struct Lexer {
    pub(crate) cursor: usize,
    pub(crate) text: Vec<char>,
    pub(crate) queue: Queue<Token>,
    pub(crate) first_token: bool,
}

/// The longest text a lexer takes: its positions, and offsets from them, fit in `isize`.
pub open spec fn max_text_len() -> int {
    isize::MAX / 4
}

/// `max_text_len`, as a number: texts shorter than this can be lexed.
pub fn max_text_len_usize() -> (n: usize)
    ensures
        n == max_text_len(),
{
    (isize::MAX / 4) as usize
}

impl Lexer {
    /// The characters of the note.
    pub closed spec fn chars(&self) -> Seq<char> {
        self.text@
    }

    /// The state of the lexer: position, whether no token was read yet, tokens read ahead.
    pub closed spec fn state(&self) -> LexState {
        LexState {
            cursor: self.cursor as int,
            first: self.first_token,
            queue: tokens_view(queued(self.queue)),
        }
    }

    /// The lexer's own bounds: the text fits, the cursor is at most two past its end,
    /// and the state is one the lexer can be in (see `lexing::lex_state_ok`).
    pub closed spec fn wf(&self) -> bool {
        &&& self.text@.len() < max_text_len()
        &&& self.cursor <= self.text@.len() + 2
        &&& lexing::lex_state_ok(self.state())
    }

    /// What a well-formed lexer is: its text fits, its cursor lies between the start
    /// and two past the end, and its state is one the lexer can be in.
    pub proof fn lemma_wf(&self)
        requires
            self.wf(),
        ensures
            self.chars().len() < max_text_len(),
            0 <= self.state().cursor <= self.chars().len() + 2,
            lexing::lex_state_ok(self.state()),
    {
    }

    /// Only the cursor moved.
    pub closed spec fn same_but_cursor(&self, other: &Lexer) -> bool {
        self.text@ == other.text@ && self.queue == other.queue && self.first_token == other.first_token
    }

    /// A lexer at the start of `text`.
    pub fn new(text: String) -> (l: Lexer)
        requires
            text@.len() < max_text_len(),
        ensures
            l.wf(),
            l.chars() == text@,
            l.state() == (LexState { cursor: 0, first: true, queue: Seq::<TokenV>::empty() }),
    {
        let chars = text::chars_of(text.as_str());
        let l = Lexer { cursor: 0, text: chars, queue: queue_new(), first_token: true };
        assert(tokens_view(queued(l.queue)) =~= Seq::<TokenV>::empty());
        l
    }

    /// A lexer over a note's file contents: the text that the UTF-8 `bytes` encode, or
    /// the decoding error.
    pub fn from_bytes(bytes: Vec<u8>) -> (r: Result<Lexer, LexerError>)
        requires
            bytes@.len() < max_text_len(),
        ensures
            r is Ok <==> vstd::utf8::valid_utf8(bytes@),
            r matches Ok(l) ==> l.wf() && l.chars() == vstd::utf8::decode_utf8(bytes@) && l.state() == (
            LexState { cursor: 0, first: true, queue: Seq::<TokenV>::empty() }),
            r matches Err(e) ==> e is Utf,
    {
        let ghost b = bytes@;
        match text::string_from_utf8(bytes) {
            Ok(text) => {
                proof {
                    text::lemma_decode_len(b);
                }
                Ok(Lexer::new(text))
            },
            Err(e) => Err(LexerError::Utf(e)),
        }
    }

    fn peak(&self, offset: isize) -> (c: Option<char>)
        requires
            self.text@.len() < max_text_len(),
            self.cursor <= self.text@.len() + 2,
            -1 <= offset <= self.text@.len() + 2,
        ensures
            c == text::char_at(self.text@, self.cursor + offset),
    {
        let index = self.cursor as isize + offset;
        if index < 0 {
            None
        } else {
            let i = index as usize;
            if i < self.text.len() {
                Some(self.text[i])
            } else {
                None
            }
        }
    }

    fn current(&self) -> (c: Option<char>)
        ensures
            c == text::char_at(self.text@, self.cursor as int),
    {
        if self.cursor < self.text.len() {
            Some(self.text[self.cursor])
        } else {
            None
        }
    }

    // Consume a character
    fn consume(&mut self) -> (c: Option<char>)
        requires
            old(self).cursor < usize::MAX,
        ensures
            c == text::char_at(old(self).text@, old(self).cursor as int),
            final(self).cursor == old(self).cursor + 1,
            final(self).same_but_cursor(old(self)),
    {
        let c = self.current();
        self.cursor = self.cursor + 1;
        c
    }

    fn consume_expect(&mut self, expected: char) -> (r: Result<(), LexFault>)
        requires
            old(self).cursor < usize::MAX,
        ensures
            final(self).cursor == old(self).cursor + 1,
            final(self).same_but_cursor(old(self)),
            r is Ok <==> text::char_at(old(self).text@, old(self).cursor as int) == Some(expected),
    {
        let c = self.consume();
        if is_char(c, expected) {
            Ok(())
        } else {
            Err(LexFault)
        }
    }

    fn consume_whitespace(&mut self) -> (s: String)
        requires
            old(self).text@.len() < max_text_len(),
            old(self).cursor <= old(self).text@.len() + 2,
        ensures
            (s@, final(self).cursor as int) == lexing::lex_whitespace(old(self).text@, old(self).cursor as int),
            final(self).cursor <= old(self).text@.len() + 2,
            final(self).same_but_cursor(old(self)),
    {
        let ghost cs = self.text@;
        let ghost c0 = self.cursor as int;
        let mut s = String::new();
        proof {
            text::lemma_scan(cs, c0, lexing::stop_at_non_ws(cs));
        }
        loop
            invariant_except_break
                self.same_but_cursor(old(self)),
                cs == self.text@,
                cs.len() < max_text_len(),
                c0 <= self.cursor <= cs.len() + 2,
                c0 == old(self).cursor,
                text::scan(cs, self.cursor as int, lexing::stop_at_non_ws(cs)) == text::scan(cs, c0, lexing::stop_at_non_ws(cs)),
                s@ == text::slice(cs, c0, self.cursor as int),
            ensures
                self.same_but_cursor(old(self)),
                self.cursor == text::scan(cs, c0, lexing::stop_at_non_ws(cs)),
                self.cursor <= cs.len() + 2,
                s@ == text::slice(cs, c0, self.cursor as int),
            decreases cs.len() + 2 - self.cursor,
        {
            match self.current() {
                Some(c) => {
                    if char_is_whitespace(c) {
                        self.consume();
                        push_char(&mut s, c);
                        assert(s@ =~= text::slice(cs, c0, self.cursor as int));
                    } else {
                        break;
                    }
                },
                None => break,
            }
        }
        s
    }

    fn consume_tag(&mut self) -> (t: Token)
        requires
            old(self).text@.len() < max_text_len(),
            old(self).cursor < old(self).text@.len(),
            old(self).text@[old(self).cursor as int] == '#',
        ensures
            (t@, final(self).cursor as int) == lexing::lex_tag(old(self).text@, old(self).cursor as int),
            final(self).cursor <= old(self).text@.len(),
            final(self).same_but_cursor(old(self)),
    {
        let ghost cs = self.text@;
        let ghost c0 = self.cursor as int;
        self.consume();
        let mut text = String::new();
        proof {
            text::lemma_scan(cs, c0 + 1, lexing::stop_at_ws(cs));
        }
        loop
            invariant_except_break
                self.same_but_cursor(old(self)),
                cs == self.text@,
                cs.len() < max_text_len(),
                c0 + 1 <= self.cursor <= cs.len(),
                c0 == old(self).cursor,
                text::scan(cs, self.cursor as int, lexing::stop_at_ws(cs)) == text::scan(cs, c0 + 1, lexing::stop_at_ws(cs)),
                text@ == text::slice(cs, c0 + 1, self.cursor as int),
            ensures
                self.same_but_cursor(old(self)),
                self.cursor == text::scan(cs, c0 + 1, lexing::stop_at_ws(cs)),
                self.cursor <= cs.len(),
                text@ == text::slice(cs, c0 + 1, self.cursor as int),
            decreases cs.len() - self.cursor,
        {
            match self.current() {
                Some(c) => {
                    if !char_is_whitespace(c) {
                        self.consume();
                        push_char(&mut text, c);
                        assert(text@ =~= text::slice(cs, c0 + 1, self.cursor as int));
                    } else {
                        break;
                    }
                },
                None => break,
            }
        }
        Token::Tag(text)
    }

    fn consume_display_math(&mut self) -> (r: Result<Token, LexFault>)
        requires
            old(self).text@.len() < max_text_len(),
            old(self).cursor + 1 < old(self).text@.len(),
            old(self).text@[old(self).cursor as int] == '$',
            old(self).text@[old(self).cursor + 1] == '$',
        ensures
            match lexing::lex_display_math(old(self).text@, old(self).cursor as int) {
                None => r is Err,
                Some((t, e)) => r matches Ok(tok) && tok@ == t && final(self).cursor == e,
            },
            final(self).cursor <= old(self).text@.len() + 2,
            final(self).same_but_cursor(old(self)),
    {
        let ghost cs = self.text@;
        let ghost c0 = self.cursor as int;
        self.consume();
        self.consume();
        let mut math = String::new();
        proof {
            text::lemma_scan(cs, c0 + 2, lexing::stop_at_math_end(cs));
        }
        loop
            invariant_except_break
                self.same_but_cursor(old(self)),
                cs == self.text@,
                cs.len() < max_text_len(),
                c0 + 2 <= self.cursor <= cs.len(),
                c0 == old(self).cursor,
                text::scan(cs, self.cursor as int, lexing::stop_at_math_end(cs)) == text::scan(
                    cs,
                    c0 + 2,
                    lexing::stop_at_math_end(cs),
                ),
                math@ == text::slice(cs, c0 + 2, self.cursor as int),
            ensures
                self.same_but_cursor(old(self)),
                c0 + 2 <= self.cursor <= cs.len(),
                self.cursor == text::scan(cs, c0 + 2, lexing::stop_at_math_end(cs)),
                math@ == text::slice(cs, c0 + 2, self.cursor as int),
            decreases cs.len() - self.cursor,
        {
            let c = self.current();
            let n = self.peak(1);
            match (c, n) {
                (Some(a), Some(b)) => {
                    if a == '$' && b == '$' {
                        break;
                    } else {
                        self.consume();
                        push_char(&mut math, a);
                        assert(math@ =~= text::slice(cs, c0 + 2, self.cursor as int));
                    }
                },
                _ => break,
            }
        }
        match self.consume() {
            Some(a) => {
                if a != '$' {
                    return Err(LexFault);
                }
            },
            None => return Err(LexFault),
        }
        match self.consume() {
            Some(b) => {
                if b != '$' {
                    return Err(LexFault);
                }
            },
            None => return Err(LexFault),
        }
        Ok(Token::DisplayMath(math))
    }

    fn consume_inline_math(&mut self) -> (r: Result<Token, LexFault>)
        requires
            old(self).text@.len() < max_text_len(),
            old(self).cursor < old(self).text@.len(),
            old(self).text@[old(self).cursor as int] == '$',
        ensures
            match lexing::lex_inline_math(old(self).text@, old(self).cursor as int) {
                None => r is Err,
                Some((t, e)) => r matches Ok(tok) && tok@ == t && final(self).cursor == e,
            },
            final(self).cursor <= old(self).text@.len() + 2,
            final(self).same_but_cursor(old(self)),
    {
        let ghost cs = self.text@;
        let ghost c0 = self.cursor as int;
        self.consume();
        let mut math = String::new();
        proof {
            text::lemma_scan(cs, c0 + 1, lexing::stop_at(cs, '$'));
        }
        loop
            invariant_except_break
                self.same_but_cursor(old(self)),
                cs == self.text@,
                cs.len() < max_text_len(),
                c0 + 1 <= self.cursor <= cs.len(),
                c0 == old(self).cursor,
                text::scan(cs, self.cursor as int, lexing::stop_at(cs, '$')) == text::scan(
                    cs,
                    c0 + 1,
                    lexing::stop_at(cs, '$'),
                ),
                math@ == text::slice(cs, c0 + 1, self.cursor as int),
            ensures
                self.same_but_cursor(old(self)),
                c0 + 1 <= self.cursor <= cs.len(),
                self.cursor == text::scan(cs, c0 + 1, lexing::stop_at(cs, '$')),
                math@ == text::slice(cs, c0 + 1, self.cursor as int),
            decreases cs.len() - self.cursor,
        {
            match self.current() {
                Some(a) => {
                    if a == '$' {
                        break;
                    } else {
                        self.consume();
                        push_char(&mut math, a);
                        assert(math@ =~= text::slice(cs, c0 + 1, self.cursor as int));
                    }
                },
                None => break,
            }
        }
        match self.consume() {
            Some(a) => {
                if a != '$' {
                    return Err(LexFault);
                }
            },
            None => return Err(LexFault),
        }
        Ok(Token::InlineMath(math))
    }

    fn consume_divider(&mut self) -> (r: Result<Token, LexFault>)
        requires
            old(self).text@.len() < max_text_len(),
            lexing::dashes_at(old(self).text@, old(self).cursor as int),
        ensures
            match lexing::lex_divider(old(self).text@, old(self).cursor as int) {
                None => r is Err,
                Some((t, e)) => r matches Ok(tok) && tok@ == t && final(self).cursor == e,
            },
            final(self).cursor <= old(self).text@.len() + 2,
            final(self).same_but_cursor(old(self)),
    {
        let ghost cs = self.text@;
        let ghost c0 = self.cursor as int;
        self.consume();
        self.consume();
        self.consume();
        proof {
            text::lemma_scan(cs, c0 + 3, lexing::stop_at_other(cs, '-'));
        }
        loop
            invariant_except_break
                self.same_but_cursor(old(self)),
                cs == self.text@,
                cs.len() < max_text_len(),
                c0 + 3 <= self.cursor <= cs.len(),
                c0 == old(self).cursor,
                text::scan(cs, self.cursor as int, lexing::stop_at_other(cs, '-')) == text::scan(
                    cs,
                    c0 + 3,
                    lexing::stop_at_other(cs, '-'),
                ),
            ensures
                self.same_but_cursor(old(self)),
                c0 + 3 <= self.cursor <= cs.len(),
                self.cursor == text::scan(cs, c0 + 3, lexing::stop_at_other(cs, '-')),
            decreases cs.len() - self.cursor,
        {
            match self.current() {
                Some(a) => {
                    if a == '-' {
                        self.consume();
                    } else {
                        break;
                    }
                },
                None => break,
            }
        }
        let ghost d = self.cursor as int;
        proof {
            text::lemma_scan(cs, d, lexing::stop_at_other(cs, ' '));
        }
        loop
            invariant_except_break
                self.same_but_cursor(old(self)),
                cs == self.text@,
                cs.len() < max_text_len(),
                d <= self.cursor <= cs.len(),
                text::scan(cs, self.cursor as int, lexing::stop_at_other(cs, ' ')) == text::scan(
                    cs,
                    d,
                    lexing::stop_at_other(cs, ' '),
                ),
            ensures
                self.same_but_cursor(old(self)),
                d <= self.cursor <= cs.len(),
                self.cursor == text::scan(cs, d, lexing::stop_at_other(cs, ' ')),
            decreases cs.len() - self.cursor,
        {
            match self.current() {
                Some(a) => {
                    if a == ' ' {
                        self.consume();
                    } else {
                        break;
                    }
                },
                None => break,
            }
        }
        match self.consume() {
            Some(a) => {
                if a == '\n' {
                    Ok(Token::Divider)
                } else {
                    Err(LexFault)
                }
            },
            None => Ok(Token::Divider),
        }
    }

    /// `[[dest#position|options|label]]`, with a leading `!` when it is shown. A link
    /// that is not closed by `]]`, or that has more than three fields, is malformed:
    /// the lexer gives up on it (`Err`), which its callers hand on, and `next` leaves
    /// such texts out by its `requires`.
    fn consume_internal_link(&mut self) -> (r: Result<Token, LexFault>)
        requires
            old(self).text@.len() < max_text_len(),
            old(self).cursor < old(self).text@.len(),
            ({
                let cs = old(self).text@;
                let c = old(self).cursor as int;
                (cs[c] == '[' && text::char_at(cs, c + 1) == Some('['))
                    || (cs[c] == '!' && text::char_at(cs, c + 1) == Some('[') && text::char_at(cs, c + 2) == Some('['))
            }),
        ensures
            match lexing::lex_internal_link(old(self).text@, old(self).cursor as int) {
                None => r is Err,
                Some((l, e)) => r matches Ok(tok) && tok@ == TokenV::InternalLink(l) && final(self).cursor == e,
            },
            final(self).cursor <= old(self).text@.len() + 2,
            final(self).same_but_cursor(old(self)),
    {
        let ghost cs = self.text@;
        let ghost c0 = self.cursor as int;
        let mut fields: Vec<Vec<char>> = Vec::new();
        fields.push(Vec::new());
        let mut shown = false;
        match self.current() {
            Some(c) => {
                if c == '!' {
                    shown = true;
                    self.consume();
                }
            },
            None => {},
        }
        self.consume();
        self.consume();
        let ghost start = self.cursor as int;
        assert(start == if shown { c0 + 3 } else { c0 + 2 });
        proof {
            text::lemma_scan(cs, start, lexing::stop_at(cs, ']'));
        }
        let ghost j = text::scan(cs, start, lexing::stop_at(cs, ']'));
        assert(fields@.map_values(|f: Vec<char>| f@) =~= lexing::split_bars(text::slice(cs, start, start)));
        loop
            invariant_except_break
                self.same_but_cursor(old(self)),
                cs == self.text@,
                cs.len() < max_text_len(),
                0 <= start <= self.cursor <= cs.len(),
                text::scan(cs, self.cursor as int, lexing::stop_at(cs, ']')) == j,
                fields@.len() >= 1,
                fields@.map_values(|f: Vec<char>| f@) == lexing::split_bars(text::slice(cs, start, self.cursor as int)),
            ensures
                self.same_but_cursor(old(self)),
                j >= cs.len() ==> self.cursor == cs.len() + 1,
                j < cs.len() ==> self.cursor == j,
                fields@.len() >= 1,
                fields@.map_values(|f: Vec<char>| f@) == lexing::split_bars(text::slice(cs, start, j)),
            decreases cs.len() - self.cursor,
        {
            let ghost before = fields@.map_values(|f: Vec<char>| f@);
            match self.current() {
                Some(c) => {
                    if c == ']' {
                        break;
                    }
                    self.consume();
                    let ghost sl = text::slice(cs, start, self.cursor as int);
                    assert(sl.drop_last() =~= text::slice(cs, start, self.cursor - 1));
                    assert(sl.last() == c);
                    if c == '|' {
                        fields.push(Vec::new());
                        assert(fields@.map_values(|f: Vec<char>| f@) =~= before.push(seq![]));
                    } else {
                        let mut last = fields.pop().unwrap();
                        last.push(c);
                        fields.push(last);
                        assert(fields@.map_values(|f: Vec<char>| f@) =~= before.update(
                            before.len() - 1,
                            before.last().push(c),
                        ));
                    }
                },
                None => {
                    self.consume();
                    break;
                },
            }
        }
        match self.consume() {
            Some(c) => {
                if c != ']' {
                    return Err(LexFault);
                }
            },
            None => return Err(LexFault),
        }
        match self.consume() {
            Some(c) => {
                if c != ']' {
                    return Err(LexFault);
                }
            },
            None => return Err(LexFault),
        }
        let n = fields.len();
        if n > 3 {
            return Err(LexFault);
        }
        let ghost fv = fields@.map_values(|f: Vec<char>| f@);
        assert(fv[0] == fields@[0]@);
        let f0 = &fields[0];
        let ghost s0 = f0@;
        let mut k: usize = 0;
        proof {
            text::lemma_scan(s0, 0, lexing::stop_at(s0, '#'));
        }
        loop
            invariant_except_break
                s0 == f0@,
                k <= s0.len(),
                text::scan(s0, k as int, lexing::stop_at(s0, '#')) == text::scan(s0, 0, lexing::stop_at(s0, '#')),
            ensures
                k <= s0.len(),
                k == text::scan(s0, 0, lexing::stop_at(s0, '#')),
            decreases s0.len() - k,
        {
            if k < f0.len() {
                if f0[k] == '#' {
                    break;
                }
                k = k + 1;
            } else {
                break;
            }
        }
        let dest;
        let position;
        if k < f0.len() {
            dest = text::string_of(f0, 0, k);
            position = Some(text::string_of(f0, k + 1, f0.len()));
        } else {
            dest = text::string_of(f0, 0, f0.len());
            assert(s0.subrange(0, s0.len() as int) =~= s0);
            position = None;
        }
        let show_how;
        let options;
        if n == 1 {
            show_how = None;
            options = None;
        } else if n == 2 {
            assert(fv[1] == fields@[1]@);
            show_how = Some(text::string_of(&fields[1], 0, fields[1].len()));
            assert(fields@[1]@.subrange(0, fields@[1]@.len() as int) =~= fields@[1]@);
            options = None;
        } else {
            assert(fv[1] == fields@[1]@);
            assert(fv[2] == fields@[2]@);
            show_how = Some(text::string_of(&fields[2], 0, fields[2].len()));
            assert(fields@[2]@.subrange(0, fields@[2]@.len() as int) =~= fields@[2]@);
            options = Some(text::string_of(&fields[1], 0, fields[1].len()));
            assert(fields@[1]@.subrange(0, fields@[1]@.len() as int) =~= fields@[1]@);
        }
        let link = InternalLink { dest, position, show_how, options, render: shown };
        Ok(Token::InternalLink(link))
    }

    fn consume_external_link(&mut self) -> (r: Result<Token, LexFault>)
        requires
            old(self).text@.len() < max_text_len(),
            old(self).cursor < old(self).text@.len(),
            ({
                let cs = old(self).text@;
                let c = old(self).cursor as int;
                (cs[c] == '[' && text::char_at(cs, c + 1) is Some) || (cs[c] == '!' && text::char_at(cs, c + 1)
                    == Some('['))
            }),
        ensures
            match lexing::lex_external_link(old(self).text@, old(self).cursor as int) {
                None => r is Err,
                Some((t, e)) => r matches Ok(tok) && tok@ == t && final(self).cursor == e,
            },
            final(self).cursor <= old(self).text@.len() + 2,
            final(self).same_but_cursor(old(self)),
    {
        let ghost cs = self.text@;
        let ghost c0 = self.cursor as int;
        let start = self.cursor;
        let mut render = false;
        match self.current() {
            Some(c) => {
                if c == '!' {
                    render = true;
                    self.consume();
                }
            },
            None => {},
        }
        let mut show_how = String::new();
        match self.consume_expect('[') {
            Ok(()) => {},
            Err(e) => return Err(e),
        }
        let ghost q1 = self.cursor as int;
        proof {
            text::lemma_scan(cs, q1, lexing::stop_at(cs, ']'));
        }
        let ghost j = text::scan(cs, q1, lexing::stop_at(cs, ']'));
        loop
            invariant_except_break
                self.same_but_cursor(old(self)),
                cs == self.text@,
                cs.len() < max_text_len(),
                0 <= q1 <= self.cursor <= cs.len(),
                text::scan(cs, self.cursor as int, lexing::stop_at(cs, ']')) == j,
                show_how@ == text::slice(cs, q1, self.cursor as int),
            ensures
                self.same_but_cursor(old(self)),
                self.cursor == lexing::past(cs, j),
                show_how@ == text::slice(cs, q1, j),
            decreases cs.len() - self.cursor,
        {
            match self.consume() {
                Some(c) => {
                    if c == ']' {
                        break;
                    }
                    push_char(&mut show_how, c);
                    assert(show_how@ =~= text::slice(cs, q1, self.cursor as int));
                },
                None => break,
            }
        }
        // Not a link after all: the characters read are a text.
        let read_end = if self.cursor <= self.text.len() { self.cursor } else { self.text.len() };
        match self.current() {
            Some(c) => {
                if c != '(' {
                    return Ok(Token::Text(text::string_of(&self.text, start, read_end)));
                }
            },
            None => return Ok(Token::Text(text::string_of(&self.text, start, read_end))),
        }
        match self.consume_expect('(') {
            Ok(()) => {},
            Err(e) => return Err(e),
        }
        let mut url = String::new();
        let ghost u1 = self.cursor as int;
        proof {
            text::lemma_scan(cs, u1, lexing::stop_at(cs, ')'));
        }
        let ghost k = text::scan(cs, u1, lexing::stop_at(cs, ')'));
        loop
            invariant_except_break
                self.same_but_cursor(old(self)),
                cs == self.text@,
                cs.len() < max_text_len(),
                0 <= u1 <= self.cursor <= cs.len(),
                text::scan(cs, self.cursor as int, lexing::stop_at(cs, ')')) == k,
                url@ == text::slice(cs, u1, self.cursor as int),
            ensures
                self.same_but_cursor(old(self)),
                self.cursor == lexing::past(cs, k),
                url@ == text::slice(cs, u1, k),
            decreases cs.len() - self.cursor,
        {
            match self.consume() {
                Some(c) => {
                    if c == ')' {
                        break;
                    }
                    push_char(&mut url, c);
                    assert(url@ =~= text::slice(cs, u1, self.cursor as int));
                },
                None => break,
            }
        }
        if self.cursor > self.text.len() {
            // No `)` closes the link: read its bracket as text.
            self.cursor = start;
            match self.consume_expect('[') {
                Ok(()) => {
                    let mut t = String::new();
                    push_char(&mut t, '[');
                    return Ok(Token::Text(t));
                },
                Err(e) => return Err(e),
            }
        }
        Ok(Token::ExternalLink(ExternalLink { url, show_how, render }))
    }

    fn consume_line(&mut self) -> (r: Result<Vec<Token>, LexFault>)
        requires
            old(self).text@.len() < max_text_len(),
            old(self).cursor <= old(self).text@.len(),
        ensures
            match lexing::lex_line(old(self).text@, old(self).cursor as int) {
                None => r is Err,
                Some((toks, e)) => r matches Ok(v) && tokens_view(v@) == toks && final(self).cursor == e,
            },
            final(self).cursor <= old(self).text@.len() + 2,
            final(self).same_but_cursor(old(self)),
    {
        let ghost cs = self.text@;
        let ghost c0 = self.cursor as int;
        let ghost total = lexing::lex_line(cs, c0);
        // The vector of tokens for this line
        let mut tokens: Vec<Token> = Vec::new();
        // The string we are currently building
        let mut s = String::new();
        assert(tokens_view(tokens@) =~= seq![]);
        loop
            invariant_except_break
                self.same_but_cursor(old(self)),
                cs == self.text@,
                cs.len() < max_text_len(),
                c0 <= self.cursor <= cs.len() + 1,
                c0 == old(self).cursor,
                lexing::lex_line_loop(cs, self.cursor as int, tokens_view(tokens@), s@) == total,
                total == lexing::lex_line(cs, c0),
            ensures
                self.same_but_cursor(old(self)),
                self.cursor <= cs.len() + 1,
                text::char_at(cs, self.cursor as int) is None || text::char_at(cs, self.cursor as int) == Some('\n'),
                lexing::lex_line_loop(cs, self.cursor as int, tokens_view(tokens@), s@) == total,
            decreases text::remaining(cs, self.cursor as int),
        {
            let c = match self.current() {
                None => break,
                Some(c) => c,
            };
            if c == '\n' {
                break;
            }
            proof {
                lexing::lemma_inline_rules_advance(cs, self.cursor as int);
            }
            let ghost before = tokens@;
            let c1 = self.peak(1);
            let c2 = self.peak(2);
            if (c == '[' && is_char(c1, '[')) || (c == '!' && is_char(c1, '[') && is_char(c2, '[')) {
                let t = Token::Text(s);
                s = String::new();
                tokens.push(t);
                match self.consume_internal_link() {
                    Ok(link) => {
                        tokens.push(link);
                        assert(tokens_view(tokens@) =~= tokens_view(before).push(t@).push(link@));
                    },
                    Err(e) => {
                        return Err(e);
                    },
                }
            } else if (c == '[' && c1.is_some()) || (c == '!' && is_char(c1, '[')) {
                let t = Token::Text(s);
                s = String::new();
                tokens.push(t);
                match self.consume_external_link() {
                    Ok(link) => {
                        tokens.push(link);
                        assert(tokens_view(tokens@) =~= tokens_view(before).push(t@).push(link@));
                    },
                    Err(e) => return Err(e),
                }
            } else if c == '$' && is_char(c1, '$') {
                let t = Token::Text(s);
                s = String::new();
                tokens.push(t);
                match self.consume_display_math() {
                    Ok(m) => {
                        tokens.push(m);
                        assert(tokens_view(tokens@) =~= tokens_view(before).push(t@).push(m@));
                    },
                    Err(e) => return Err(e),
                }
            } else if c == '$' {
                let t = Token::Text(s);
                s = String::new();
                tokens.push(t);
                match self.consume_inline_math() {
                    Ok(m) => {
                        tokens.push(m);
                        assert(tokens_view(tokens@) =~= tokens_view(before).push(t@).push(m@));
                    },
                    Err(e) => return Err(e),
                }
            } else {
                self.consume();
                push_char(&mut s, c);
            }
        }
        // A line that ends with a newline takes it; one that ends the text does not.
        if self.current().is_some() {
            self.consume();
            push_char(&mut s, '\n');
        }
        let ghost before = tokens@;
        let t = Token::Text(s);
        tokens.push(t);
        assert(tokens_view(tokens@) =~= tokens_view(before).push(t@));
        Ok(tokens)
    }

    fn consume_header(&mut self) -> (r: Result<Token, LexFault>)
        requires
            old(self).text@.len() < max_text_len(),
            old(self).cursor < old(self).text@.len(),
            old(self).text@[old(self).cursor as int] == '#',
        ensures
            match lexing::lex_header(old(self).text@, old(self).cursor as int) {
                None => r is Err,
                Some((t, e)) => r matches Ok(tok) && tok@ == t && final(self).cursor == e,
            },
            final(self).cursor <= old(self).text@.len() + 2,
            final(self).same_but_cursor(old(self)),
    {
        let ghost cs = self.text@;
        let ghost c0 = self.cursor as int;
        let mut level: usize = 0;
        proof {
            text::lemma_scan(cs, c0, lexing::stop_at_other(cs, '#'));
        }
        loop
            invariant_except_break
                self.same_but_cursor(old(self)),
                cs == self.text@,
                cs.len() < max_text_len(),
                c0 <= self.cursor <= cs.len(),
                c0 == old(self).cursor,
                level == self.cursor - c0,
                text::scan(cs, self.cursor as int, lexing::stop_at_other(cs, '#')) == text::scan(
                    cs,
                    c0,
                    lexing::stop_at_other(cs, '#'),
                ),
            ensures
                self.same_but_cursor(old(self)),
                c0 <= self.cursor <= cs.len(),
                level == self.cursor - c0,
                self.cursor == text::scan(cs, c0, lexing::stop_at_other(cs, '#')),
            decreases cs.len() - self.cursor,
        {
            match self.current() {
                Some(c) => {
                    if c == '#' {
                        self.consume();
                        level = level + 1;
                    } else {
                        break;
                    }
                },
                None => break,
            }
        }
        let ghost h = self.cursor as int;
        proof {
            text::lemma_scan(cs, h, lexing::stop_at_non_ws(cs));
        }
        let _ = self.consume_whitespace();
        match self.consume_line() {
            Ok(header) => {
                let t = Token::Header(level, header);
                proof {
                    lemma_token_view(t);
                }
                Ok(t)
            },
            Err(e) => Err(e),
        }
    }

    fn consume_quote(&mut self) -> (r: Result<Vec<Token>, LexFault>)
        requires
            old(self).text@.len() < max_text_len(),
            old(self).cursor <= old(self).text@.len() + 2,
        ensures
            match lexing::lex_quote(old(self).text@, old(self).cursor as int) {
                None => r is Err,
                Some((toks, e)) => r matches Ok(v) && tokens_view(v@) == toks && final(self).cursor == e,
            },
            final(self).cursor <= old(self).text@.len() + 2,
            final(self).same_but_cursor(old(self)),
    {
        let ghost cs = self.text@;
        let ghost c0 = self.cursor as int;
        let ghost total = lexing::lex_quote(cs, c0);
        let mut contents: Vec<Token> = Vec::new();
        assert(tokens_view(contents@) =~= seq![]);
        loop
            invariant_except_break
                self.same_but_cursor(old(self)),
                cs == self.text@,
                cs.len() < max_text_len(),
                self.cursor <= cs.len() + 2,
                lexing::lex_quote_loop(cs, self.cursor as int, tokens_view(contents@)) == total,
                total == lexing::lex_quote(cs, c0),
                c0 == old(self).cursor,
            ensures
                self.same_but_cursor(old(self)),
                self.cursor <= cs.len() + 2,
                text::char_at(cs, self.cursor as int) != Some('>'),
                lexing::lex_quote_loop(cs, self.cursor as int, tokens_view(contents@)) == total,
            decreases text::remaining(cs, self.cursor as int),
        {
            if !is_char(self.current(), '>') {
                break;
            }
            let ghost p = self.cursor as int;
            self.consume();
            // Ignore white space
            proof {
                text::lemma_scan(cs, p + 1, lexing::stop_at_non_ws(cs));
            }
            let _ = self.consume_whitespace();
            proof {
                lexing::lemma_line_loop(cs, self.cursor as int, seq![], seq![]);
            }
            let ghost before = contents@;
            match self.consume_line() {
                Ok(line) => {
                    let mut line = line;
                    let ghost lv = line@;
                    contents.append(&mut line);
                    assert(tokens_view(contents@) =~= tokens_view(before) + tokens_view(lv));
                },
                Err(e) => return Err(e),
            }
        }
        Ok(contents)
    }

    fn consume_callout(&mut self) -> (r: Result<Token, LexFault>)
        requires
            old(self).text@.len() < max_text_len(),
            old(self).cursor < old(self).text@.len(),
            old(self).text@[old(self).cursor as int] == '>',
            ({
                let cs = old(self).text@;
                let q = lexing::lex_whitespace(cs, old(self).cursor + 1).1;
                text::char_at(cs, q) == Some('[') && text::char_at(cs, q + 1) == Some('!')
            }),
        ensures
            match lexing::lex_callout(old(self).text@, old(self).cursor as int) {
                None => r is Err,
                Some((c, e)) => r matches Ok(tok) && tok@ == TokenV::Callout(c) && final(self).cursor == e,
            },
            final(self).cursor <= old(self).text@.len() + 2,
            final(self).same_but_cursor(old(self)),
    {
        let ghost cs = self.text@;
        let ghost c0 = self.cursor as int;
        self.consume();
        proof {
            text::lemma_scan(cs, c0 + 1, lexing::stop_at_non_ws(cs));
        }
        self.consume_whitespace();
        self.consume();
        self.consume();
        let ghost k0 = self.cursor as int;
        proof {
            text::lemma_scan(cs, k0, lexing::stop_at(cs, ']'));
        }
        let mut kind_text = String::new();
        loop
            invariant_except_break
                self.same_but_cursor(old(self)),
                cs == self.text@,
                cs.len() < max_text_len(),
                0 <= k0 <= self.cursor <= cs.len(),
                c0 == old(self).cursor,
                k0 == lexing::lex_whitespace(cs, c0 + 1).1 + 2,
                text::scan(cs, self.cursor as int, lexing::stop_at(cs, ']')) == text::scan(
                    cs,
                    k0,
                    lexing::stop_at(cs, ']'),
                ),
                kind_text@ == text::slice(cs, k0, self.cursor as int),
            ensures
                self.same_but_cursor(old(self)),
                self.cursor < cs.len(),
                self.cursor == text::scan(cs, k0, lexing::stop_at(cs, ']')),
                kind_text@ == text::slice(cs, k0, self.cursor as int),
            decreases cs.len() - self.cursor,
        {
            match self.current() {
                Some(c) => {
                    if c == ']' {
                        break;
                    }
                    self.consume();
                    push_char(&mut kind_text, c);
                    assert(kind_text@ =~= text::slice(cs, k0, self.cursor as int));
                },
                None => return Err(LexFault),
            }
        }
        let kind = text::to_lowercase(kind_text.as_str());
        self.consume();
        let mut foldable = false;
        if is_char(self.current(), '-') {
            self.consume();
            foldable = true;
        }
        let ghost f = self.cursor as int;
        proof {
            text::lemma_scan(cs, f, lexing::stop_at_non_ws(cs));
        }
        self.consume_whitespace();
        let title = if !is_char(self.peak(-1), '\n') {
            match self.consume_line() {
                Ok(t) => strip_trailing_newline(t),
                Err(e) => return Err(e),
            }
        } else {
            // If the callout does not have a title
            let kc = text::chars_of(kind.as_str());
            if kc.len() == 0 {
                return Err(LexFault);
            }
            if kc[0] as u32 >= 0x80 {
                return Err(LexFault);
            }
            let first = text::string_of(&kc, 0, 1);
            let rest = text::string_of(&kc, 1, kc.len());
            let mut name = text::to_uppercase(first.as_str());
            name.append(rest.as_str());
            assert(kc@.take(1) == kc@.subrange(0, 1));
            assert(kc@.skip(1) == kc@.subrange(1, kc@.len() as int));
            let t = Token::Text(name);
            let v = vec![t];
            assert(tokens_view(v@) =~= seq![t@]);
            v
        };
        match self.consume_quote() {
            Ok(contents) => {
                let t = Token::Callout(Callout { kind, title, contents, foldable });
                proof {
                    lemma_token_view(t);
                }
                Ok(t)
            },
            Err(e) => Err(e),
        }
    }

    // blocks of text beginning with '>'. Either Callout or quote.
    fn consume_block(&mut self) -> (r: Result<Token, LexFault>)
        requires
            old(self).text@.len() < max_text_len(),
            old(self).cursor < old(self).text@.len(),
            old(self).text@[old(self).cursor as int] == '>',
        ensures
            match lexing::lex_block(old(self).text@, old(self).cursor as int) {
                None => r is Err,
                Some((t, e)) => r matches Ok(tok) && tok@ == t && final(self).cursor == e,
            },
            final(self).cursor <= old(self).text@.len() + 2,
            final(self).same_but_cursor(old(self)),
    {
        let ghost cs = self.text@;
        let ghost c0 = self.cursor as int;
        // Find the starting character to determine if block is a callout
        let mut pointer: isize = 1;
        proof {
            text::lemma_scan(cs, c0 + 1, lexing::stop_at_non_ws(cs));
        }
        loop
            invariant_except_break
                self == old(self),
                cs == self.text@,
                cs.len() < max_text_len(),
                c0 == self.cursor,
                c0 < cs.len(),
                1 <= pointer <= cs.len() - c0,
                text::scan(cs, c0 + pointer, lexing::stop_at_non_ws(cs)) == text::scan(
                    cs,
                    c0 + 1,
                    lexing::stop_at_non_ws(cs),
                ),
            ensures
                self == old(self),
                1 <= pointer <= cs.len() - c0,
                c0 + pointer == text::scan(cs, c0 + 1, lexing::stop_at_non_ws(cs)),
            decreases cs.len() - c0 - pointer,
        {
            match self.peak(pointer) {
                Some(c) => {
                    if char_is_whitespace(c) {
                        pointer = pointer + 1;
                    } else {
                        break;
                    }
                },
                None => break,
            }
        }
        // Is the quote a callout?
        if is_char(self.peak(pointer), '[') && is_char(self.peak(pointer + 1), '!') {
            self.consume_callout()
        } else {
            match self.consume_quote() {
                Ok(q) => {
                    let t = Token::Quote(q);
                    proof {
                        lemma_token_view(t);
                    }
                    Ok(t)
                },
                Err(e) => Err(e),
            }
        }
    }

    fn consume_front_matter(&mut self) -> (r: Result<Token, LexFault>)
        requires
            old(self).text@.len() < max_text_len(),
            lexing::dashes_at(old(self).text@, old(self).cursor as int),
        ensures
            match lexing::lex_front_matter(old(self).text@, old(self).cursor as int) {
                None => r is Err,
                Some((t, e)) => r matches Ok(tok) && tok@ == t && final(self).cursor == e,
            },
            final(self).cursor <= old(self).text@.len() + 2,
            final(self).same_but_cursor(old(self)),
    {
        let ghost cs = self.text@;
        let ghost c0 = self.cursor as int;
        self.consume();
        self.consume();
        self.consume();
        let mut yaml_text = String::new();
        proof {
            text::lemma_scan(cs, c0 + 3, lexing::stop_at_front_matter_end(cs));
        }
        loop
            invariant_except_break
                self.same_but_cursor(old(self)),
                cs == self.text@,
                cs.len() < max_text_len(),
                c0 + 3 <= self.cursor <= cs.len(),
                c0 == old(self).cursor,
                text::scan(cs, self.cursor as int, lexing::stop_at_front_matter_end(cs)) == text::scan(
                    cs,
                    c0 + 3,
                    lexing::stop_at_front_matter_end(cs),
                ),
                yaml_text@ == text::slice(cs, c0 + 3, self.cursor as int),
            ensures
                self.same_but_cursor(old(self)),
                c0 + 3 <= self.cursor <= cs.len(),
                self.cursor == text::scan(cs, c0 + 3, lexing::stop_at_front_matter_end(cs)),
                yaml_text@ == text::slice(cs, c0 + 3, self.cursor as int),
            decreases cs.len() - self.cursor,
        {
            let a = self.peak(0);
            let b = self.peak(1);
            let c = self.peak(2);
            if is_char(a, '-') && is_char(b, '-') && is_char(c, '-') {
                break;
            }
            if c.is_none() {
                break;
            }
            match self.consume() {
                Some(ch) => {
                    push_char(&mut yaml_text, ch);
                    assert(yaml_text@ =~= text::slice(cs, c0 + 3, self.cursor as int));
                },
                None => break,
            }
        }
        match crate::frontmatter::load_yaml(yaml_text.as_str()) {
            Err(_) => Ok(Token::Text(String::new())),
            Ok(docs) => {
                if docs.len() == 0 {
                    return Ok(Token::Text(String::new()));
                }
                let mut docs = docs;
                let frontmatter = docs.remove(0);
                if !is_char(self.consume(), '-') {
                    return Err(LexFault);
                }
                if !is_char(self.consume(), '-') {
                    return Err(LexFault);
                }
                if !is_char(self.consume(), '-') {
                    return Err(LexFault);
                }
                Ok(Token::Frontmatter(frontmatter))
            },
        }
    }

    /// The next token, or `None` at the end of the text; `Err` where the lexer gives up.
    /// Tokens of a line are read together; all but the first wait in the queue.
    pub fn try_next(&mut self) -> (r: Result<Option<Token>, LexFault>)
        requires
            old(self).wf(),
        ensures
            final(self).chars() == old(self).chars(),
            match lexing::lex_next(old(self).chars(), old(self).state()) {
                None => r is Err,
                Some((t, st)) => r matches Ok(o) && opt_token_view(o) == t && final(self).state() == st
                    && final(self).wf(),
            },
    {
        let ghost cs = self.text@;
        proof {
            lexing::lemma_next_front_matter_only_first(cs, self.state());
        }
        if queue_size(&self.queue) > 0 {
            let ghost q0 = queued(self.queue);
            let t = queue_remove(&mut self.queue);
            assert(tokens_view(queued(self.queue)) =~= tokens_view(q0).drop_first());
            return Ok(t);
        }
        let c = match self.current() {
            None => return Ok(None),
            Some(c) => c,
        };
        let ghost p = self.cursor as int;
        let ghost q0 = self.queue;
        assert(tokens_view(queued(self.queue)) =~= Seq::<TokenV>::empty());
        let token = if c == '#' {
            let next = self.peak(1);
            if is_char(next, ' ') || is_char(next, '#') {
                match self.consume_header() {
                    Ok(t) => Some(t),
                    Err(e) => return Err(e),
                }
            } else {
                Some(self.consume_tag())
            }
        } else if c == '>' {
            match self.consume_block() {
                Ok(t) => Some(t),
                Err(e) => return Err(e),
            }
        } else if c == '-' && self.first_token && is_char(self.peak(1), '-') && is_char(self.peak(2), '-') {
            match self.consume_front_matter() {
                Ok(t) => Some(t),
                Err(e) => return Err(e),
            }
        } else if c == '-' && is_char(self.peak(1), '-') && is_char(self.peak(2), '-') {
            match self.consume_divider() {
                Ok(t) => Some(t),
                Err(e) => return Err(e),
            }
        } else if c == '$' && is_char(self.peak(1), '$') {
            match self.consume_display_math() {
                Ok(t) => Some(t),
                Err(e) => return Err(e),
            }
        } else if c == '$' {
            match self.consume_inline_math() {
                Ok(t) => Some(t),
                Err(e) => return Err(e),
            }
        } else if char_is_whitespace(c) {
            Some(Token::Text(self.consume_whitespace()))
        } else {
            match self.consume_line() {
                Ok(tokens) => {
                    proof {
                        lexing::lemma_line_loop(cs, p, seq![], seq![]);
                    }
                    let ghost tv = tokens_view(tokens@);
                    enqueue_all(&mut self.queue, tokens);
                    assert(queued(q0) =~= Seq::<Token>::empty());
                    let ghost q1 = queued(self.queue);
                    let t = queue_remove(&mut self.queue);
                    assert(tokens_view(queued(self.queue)) =~= tv.drop_first());
                    t
                },
                Err(e) => return Err(e),
            }
        };
        self.first_token = false;
        Ok(token)
    }

    /// The next token, or `None` at the end of the text, on a text where the lexer
    /// does not give up at this step.
    pub fn next(&mut self) -> (t: Option<Token>)
        requires
            old(self).wf(),
            lexing::lex_next(old(self).chars(), old(self).state()) is Some,
        ensures
            final(self).chars() == old(self).chars(),
            final(self).wf(),
            opt_token_view(t) == lexing::lex_next(old(self).chars(), old(self).state())->Some_0.0,
            final(self).state() == lexing::lex_next(old(self).chars(), old(self).state())->Some_0.1,
    {
        match self.try_next() {
            Ok(t) => t,
            Err(_) => None,
        }
    }

    /// All tokens from here to the end of the text, in order: what iterating the lexer
    /// to its end yields. `Err` where the lexer gives up on the way.
    pub fn tokens(self) -> (r: Result<Vec<Token>, LexFault>)
        requires
            self.wf(),
        ensures
            match lexing::lex_all(self.chars(), self.state()) {
                None => r is Err,
                Some(ts) => r matches Ok(v) && tokens_view(v@) == ts,
            },
    {
        let ghost cs = self.chars();
        let ghost total = lexing::lex_all(cs, self.state());
        let mut lexer = self;
        let mut out: Vec<Token> = Vec::new();
        assert(tokens_view(out@) =~= seq![]);
        loop
            invariant_except_break
                lexer.wf(),
                lexer.chars() == cs,
                cs == self.chars(),
                total == lexing::lex_all(self.chars(), self.state()),
                match lexing::lex_all(cs, lexer.state()) {
                    None => total is None,
                    Some(rest) => total == Some(tokens_view(out@) + rest),
                },
            ensures
                total == Some(tokens_view(out@)),
            decreases text::remaining(cs, lexer.state().cursor), lexer.state().queue.len(),
        {
            proof {
                lexing::lemma_next_progress(cs, lexer.state());
            }
            let ghost before = out@;
            match lexer.try_next() {
                Err(e) => return Err(e),
                Ok(None) => {
                    assert(tokens_view(out@) + seq![] =~= tokens_view(out@));
                    break;
                },
                Ok(Some(t)) => {
                    out.push(t);
                    assert(tokens_view(out@) =~= tokens_view(before).push(t@));
                    assert(tokens_view(out@) + lexing::lex_all(cs, lexer.state()).unwrap_or(seq![]) =~= tokens_view(before)
                        + (seq![t@] + lexing::lex_all(cs, lexer.state()).unwrap_or(seq![])));
                },
            }
        }
        Ok(out)
    }
}

/// The value of an optional token.
pub open spec fn opt_token_view(o: Option<Token>) -> Option<TokenV> {
    match o {
        Some(t) => Some(t@),
        None => None,
    }
}

/// Appends the tokens to the back of the queue, in order.
fn enqueue_all(q: &mut Queue<Token>, tokens: Vec<Token>)
    ensures
        queued(*final(q)) == queued(*old(q)) + tokens@,
{
    let ghost all = tokens@;
    let mut tokens = tokens;
    let mut rev: Vec<Token> = Vec::new();
    while tokens.len() > 0
        invariant
            tokens@.len() + rev@.len() == all.len(),
            tokens@ == all.take(tokens@.len() as int),
            forall|i: int| 0 <= i < rev@.len() ==> #[trigger] rev@[i] == all[all.len() - 1 - i],
        decreases tokens@.len(),
    {
        let t = tokens.pop().unwrap();
        rev.push(t);
    }
    assert(queued(*q) =~= queued(*old(q)) + all.take(0));
    while rev.len() > 0
        invariant
            rev@.len() <= all.len(),
            forall|i: int| 0 <= i < rev@.len() ==> #[trigger] rev@[i] == all[all.len() - 1 - i],
            queued(*q) == queued(*old(q)) + all.take(all.len() - rev@.len()),
        decreases rev@.len(),
    {
        let ghost k = all.len() - rev@.len();
        let t = rev.pop().unwrap();
        assert(t == all[k]);
        queue_add(q, t);
        assert(all.take(k + 1) =~= all.take(k).push(all[k]));
        assert(queued(*q) =~= queued(*old(q)) + all.take(k + 1));
    }
    assert(all.take(all.len() as int) =~= all);

}

/// A title line without the newline that ends its last text.
fn strip_trailing_newline(title: Vec<Token>) -> (r: Vec<Token>)
    ensures
        tokens_view(r@) == lexing::strip_newline(tokens_view(title@)),
{
    let mut title = title;
    let ghost tv = tokens_view(title@);
    if title.len() == 0 {
        return title;
    }
    let ghost before = title@;
    let last = title.pop().unwrap();
    assert(tokens_view(title@) =~= tv.drop_last());
    match last {
        Token::Text(t) => {
            let tc = text::chars_of(t.as_str());
            if tc.len() > 0 && tc[tc.len() - 1] == '\n' {
                let t2 = Token::Text(text::string_of(&tc, 0, tc.len() - 1));
                let ghost mid = title@;
                title.push(t2);
                assert(tokens_view(title@) =~= tokens_view(mid).push(t2@));
                assert(tc@.drop_last() =~= tc@.subrange(0, tc@.len() - 1));
            } else {
                let t2 = Token::Text(t);
                title.push(t2);
                assert(tokens_view(title@) =~= tv);
            }
        },
        other => {
            title.push(other);
            assert(title@ =~= before);
        },
    }
    title
}

/// Whether `o` holds the character `c`.
fn is_char(o: Option<char>, c: char) -> (b: bool)
    ensures
        b == (o == Some(c)),
{
    match o {
        Some(x) => x == c,
        None => false,
    }
}

} // verus!
