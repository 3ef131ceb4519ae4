//! LaTeX snippets: the newline cleanup that Hugo needs, and a small tokenizer.

use vstd::prelude::*;
use crate::text::{self, push_char, chars_of, char_is_whitespace, char_is_ascii_punctuation};

verus! {

/// What `process_latex` makes of one character: a newline becomes a space.
pub open spec fn latex_char(c: char) -> char {
    if c == '\n' { ' ' } else { c }
}

/// A text with every newline turned into a space.
pub open spec fn latex_text(s: Seq<char>) -> Seq<char> {
    s.map_values(|c: char| latex_char(c))
}

/// Convert latex to be hugo-friendly: every newline becomes a space.
pub fn process_latex(input: String) -> (output: String)
    ensures
        output@ == latex_text(input@),
{
    let mut output = String::new();
    let cs = chars_of(input.as_str());
    let mut i: usize = 0;
    while i < cs.len()
        invariant
            cs@ == input@,
            i <= cs@.len(),
            output@ == cs@.take(i as int).map_values(|c: char| latex_char(c)),
        decreases cs.len() - i,
    {
        let c = cs[i];
        if c == '\n' {
            push_char(&mut output, ' ');
        } else {
            push_char(&mut output, c);
        }
        i = i + 1;
        assert(cs@.take(i as int) =~= cs@.take(i - 1).push(c));
        assert(output@ =~= cs@.take(i as int).map_values(|c: char| latex_char(c)));
    }
    assert(cs@.take(cs@.len() as int) =~= cs@);
    output
}

} // verus!

verus! {

/// The superscript and subscript attached to a token.
#[derive(Debug, PartialEq)]
pub struct TexTokenDecoration {
    pub superscript: Vec<TexToken>,
    pub subscript: Vec<TexToken>,
}

/// `\command{arg1}{arg2}`: a name and the token groups of its arguments.
#[derive(Debug, PartialEq)]
pub struct TexCommand {
    pub name: String,
    pub arguments: Vec<Vec<TexToken>>,
}

pub type TexSymbol = String;

#[derive(Debug, PartialEq)]
pub enum TexTokenKind {
    /// `\command` or `\command{arg1 arg2 ...}`
    Command(TexCommand),
    /// The `\\` sequence
    Newline,
    /// Everything else
    Symbol(TexSymbol),
}

#[derive(Debug, PartialEq)]
pub struct TexToken {
    pub kind: TexTokenKind,
    pub decoration: TexTokenDecoration,
}

/// The mathematical value of a token kind.
pub enum TexKindV {
    Command(Seq<char>, Seq<Seq<TexTokenV>>),
    Newline,
    Symbol(Seq<char>),
}

/// The mathematical value of a token.
pub struct TexTokenV {
    pub kind: TexKindV,
    pub superscript: Seq<TexTokenV>,
    pub subscript: Seq<TexTokenV>,
}

/// The value of an executable token, defined by recursion over its structure.
pub open spec fn tex_token_view(t: TexToken) -> TexTokenV
    decreases t,
{
    let sup = t.decoration.superscript@;
    let sub = t.decoration.subscript@;
    TexTokenV {
        kind: match t.kind {
            TexTokenKind::Command(c) => TexKindV::Command(
                c.name@,
                Seq::new(
                    c.arguments@.len(),
                    |i: int|
                        if 0 <= i < c.arguments@.len() {
                            Seq::new(
                                c.arguments@[i]@.len(),
                                |j: int|
                                    if 0 <= j < c.arguments@[i]@.len() {
                                        tex_token_view(c.arguments@[i]@[j])
                                    } else {
                                        tex_symbol(seq![])
                                    },
                            )
                        } else {
                            seq![]
                        },
                ),
            ),
            TexTokenKind::Newline => TexKindV::Newline,
            TexTokenKind::Symbol(s) => TexKindV::Symbol(s@),
        },
        superscript: Seq::new(
            sup.len(),
            |i: int|
                if 0 <= i < sup.len() {
                    tex_token_view(sup[i])
                } else {
                    tex_symbol(seq![])
                },
        ),
        subscript: Seq::new(
            sub.len(),
            |i: int|
                if 0 <= i < sub.len() {
                    tex_token_view(sub[i])
                } else {
                    tex_symbol(seq![])
                },
        ),
    }
}

impl View for TexToken {
    type V = TexTokenV;

    open spec fn view(&self) -> TexTokenV {
        tex_token_view(*self)
    }
}

/// The values of a sequence of tokens.
pub open spec fn tex_tokens_view(s: Seq<TexToken>) -> Seq<TexTokenV> {
    s.map_values(|t: TexToken| t@)
}

/// The values of a sequence of argument groups.
pub open spec fn tex_groups_view(s: Seq<Vec<TexToken>>) -> Seq<Seq<TexTokenV>> {
    s.map_values(|g: Vec<TexToken>| tex_tokens_view(g@))
}

/// A plain symbol token with no decoration.
pub open spec fn tex_symbol(s: Seq<char>) -> TexTokenV {
    TexTokenV { kind: TexKindV::Symbol(s), superscript: seq![], subscript: seq![] }
}

/// The line break `\\` of TeX, without decoration.
pub open spec fn tex_newline() -> TexTokenV {
    TexTokenV { kind: TexKindV::Newline, superscript: seq![], subscript: seq![] }
}

/// A token that carries nothing: the empty symbol without decoration.
pub open spec fn tex_is_empty(t: TexTokenV) -> bool {
    t.kind == TexKindV::Symbol(seq![]) && t.superscript.len() == 0 && t.subscript.len() == 0
}

/// The symbol `s` with `d` as its subscript (after `_`) or superscript (after `^`).
pub open spec fn tex_decorated(s: Seq<char>, mark: char, d: Seq<TexTokenV>) -> TexTokenV {
    if mark == '_' {
        TexTokenV { kind: TexKindV::Symbol(s), superscript: seq![], subscript: d }
    } else {
        TexTokenV { kind: TexKindV::Symbol(s), superscript: d, subscript: seq![] }
    }
}

/// How many characters lie at and after `pos`.
pub open spec fn tex_remaining(cs: Seq<char>, pos: int) -> nat {
    if 0 <= pos < cs.len() {
        (cs.len() - pos) as nat
    } else {
        0
    }
}

/// The token group that starts at `c`: everything up to the `}` that closes it, or to
/// the end. Returns the tokens that carry something, and how far the cursor moves
/// (the closing `}` included).
pub open spec fn tex_parse(cs: Seq<char>, c: int) -> (Seq<TexTokenV>, nat)
    decreases tex_remaining(cs, c), 1nat,
{
    let (toks, adv) = tex_parse_loop(cs, c, 0, seq![], seq![]);
    (toks.filter(|t: TexTokenV| !tex_is_empty(t)), adv)
}

/// The group scan at the character `pos`, with `level` open `{` of its own, the tokens
/// `toks` so far and the text `unf` of the symbol under way. Returns all tokens, the
/// empty ones included, and how far the cursor moves from `pos`.
pub open spec fn tex_parse_loop(
    cs: Seq<char>,
    pos: int,
    level: nat,
    toks: Seq<TexTokenV>,
    unf: Seq<char>,
) -> (Seq<TexTokenV>, nat)
    decreases tex_remaining(cs, pos), 0nat,
{
    if !(0 <= pos < cs.len()) {
        (toks.push(tex_symbol(unf)), 1)
    } else {
        let ch = cs[pos];
        if ch == '\\' && pos + 1 < cs.len() && cs[pos + 1] == '\\' {
            let (all, b) = tex_parse_loop(
                cs,
                pos + 2,
                level,
                toks.push(tex_symbol(unf)).push(tex_newline()),
                seq![],
            );
            (all, 2 + b)
        } else if ch == '\\' {
            let (cmd, a) = tex_command(cs, pos + 1);
            let (all, b) = tex_parse_loop(
                cs,
                pos + 1 + a,
                level,
                toks.push(tex_symbol(unf)).push(cmd),
                seq![],
            );
            (all, 1 + a + b)
        } else if ch == '{' {
            let (all, b) = tex_parse_loop(cs, pos + 1, level + 1, toks, unf.push('{'));
            (all, 1 + b)
        } else if ch == '}' {
            if level == 0 {
                (toks.push(tex_symbol(unf)), 1)
            } else {
                let (all, b) = tex_parse_loop(cs, pos + 1, (level - 1) as nat, toks, unf);
                (all, 1 + b)
            }
        } else if ch == '_' || ch == '^' {
            if pos + 1 < cs.len() && cs[pos + 1] == '{' {
                let (inner, a) = tex_parse(cs, pos + 2);
                let (all, b) = tex_parse_loop(
                    cs,
                    pos + 2 + a,
                    level,
                    toks.push(tex_decorated(unf, ch, inner)),
                    seq![],
                );
                (all, 2 + a + b)
            } else if pos + 1 < cs.len() {
                let d = seq![tex_symbol(seq![cs[pos + 1]])];
                let (all, b) = tex_parse_loop(
                    cs,
                    pos + 2,
                    level,
                    toks.push(tex_decorated(unf, ch, d)),
                    seq![],
                );
                (all, 2 + b)
            } else {
                let (all, b) = tex_parse_loop(cs, pos + 2, level, toks.push(tex_symbol(unf)), seq![]);
                (all, 2 + b)
            }
        } else if text::is_white_space(ch) {
            if unf.len() > 0 {
                let (all, b) = tex_parse_loop(cs, pos + 1, level, toks.push(tex_symbol(unf)), seq![]);
                (all, 1 + b)
            } else {
                let (all, b) = tex_parse_loop(cs, pos + 1, level, toks, unf);
                (all, 1 + b)
            }
        } else {
            let (all, b) = tex_parse_loop(cs, pos + 1, level, toks, unf.push(ch));
            (all, 1 + b)
        }
    }
}

/// The command whose name starts at `c` (just after `\`), and how far the cursor moves.
pub open spec fn tex_command(cs: Seq<char>, c: int) -> (TexTokenV, nat)
    decreases tex_remaining(cs, c), 2nat,
{
    let (name, args, adv) = tex_command_name(cs, c, seq![]);
    (TexTokenV { kind: TexKindV::Command(name, args), superscript: seq![], subscript: seq![] }, adv)
}

/// The name scan of a command at `pos`: the name ends at whitespace (consumed), at a
/// punctuation character (left in place; `{` starts the arguments) or at the end.
pub open spec fn tex_command_name(cs: Seq<char>, pos: int, name: Seq<char>) -> (
    Seq<char>,
    Seq<Seq<TexTokenV>>,
    nat,
)
    decreases tex_remaining(cs, pos), 1nat,
{
    if !(0 <= pos < cs.len()) {
        (name, seq![], 1)
    } else {
        let ch = cs[pos];
        if text::is_white_space(ch) {
            (name, seq![], 1)
        } else if ch == '{' {
            let (args, a) = tex_command_args(cs, pos, seq![]);
            (name, args, a)
        } else if text::is_ascii_punct(ch) {
            (name, seq![], 0)
        } else {
            let (n, args, a) = tex_command_name(cs, pos + 1, name.push(ch));
            (n, args, 1 + a)
        }
    }
}

/// The arguments `{...}{...}` of a command, read while the next character is `{`.
pub open spec fn tex_command_args(cs: Seq<char>, pos: int, args: Seq<Seq<TexTokenV>>) -> (
    Seq<Seq<TexTokenV>>,
    nat,
)
    decreases tex_remaining(cs, pos), 0nat,
{
    if 0 <= pos < cs.len() && cs[pos] == '{' {
        let (arg, a) = tex_parse(cs, pos + 1);
        let (all, b) = tex_command_args(cs, pos + 1 + a, args.push(arg));
        (all, 1 + a + b)
    } else {
        (args, 0)
    }
}

} // verus!

verus! {

impl TexToken {
    /// A token of the given kind with no decoration.
    pub fn new_plain(kind: TexTokenKind) -> (t: TexToken)
        ensures
            t.kind == kind,
            t.decoration.superscript@.len() == 0,
            t.decoration.subscript@.len() == 0,
    {
        TexToken {
            kind,
            decoration: TexTokenDecoration { superscript: Vec::new(), subscript: Vec::new() },
        }
    }

    /// Whether the token is the empty symbol with no decoration.
    pub fn is_empty(&self) -> (b: bool)
        ensures
            b == tex_is_empty(self@),
    {
        let plain = self.decoration.superscript.len() == 0 && self.decoration.subscript.len() == 0;
        match &self.kind {
            TexTokenKind::Symbol(s) => {
                if s.as_str().is_empty() && plain {
                    assert(s@ =~= Seq::<char>::empty());
                    true
                } else {
                    assert(self@.kind == TexKindV::Symbol(s@));
                    false
                }
            },
            _ => false,
        }
    }
}

/// Tokenizer state: the characters, the cursor, and the text of the symbol under way.
pub struct TexParser {
    cursor: usize,
    chars: Vec<char>,
    unfinished_token: String,
}

impl TexParser {
    /// The characters being tokenized.
    pub closed spec fn text(&self) -> Seq<char> {
        self.chars@
    }

    /// The position of the next character to read.
    pub closed spec fn position(&self) -> int {
        self.cursor as int
    }

    /// The text of the symbol under way.
    pub closed spec fn pending(&self) -> Seq<char> {
        self.unfinished_token@
    }

    /// A tokenizer at the start of `chars`.
    pub fn new(chars: Vec<char>) -> (p: TexParser)
        ensures
            p.text() == chars@,
            p.position() == 0,
            p.pending() == Seq::<char>::empty(),
    {
        TexParser { cursor: 0, chars, unfinished_token: String::new() }
    }

    fn current(&self) -> (c: Option<char>)
        ensures
            c == text::char_at(self.chars@, self.cursor as int),
    {
        if self.cursor < self.chars.len() {
            Some(self.chars[self.cursor])
        } else {
            None
        }
    }

    fn consume(&mut self) -> (c: Option<char>)
        requires
            old(self).cursor < usize::MAX,
        ensures
            c == text::char_at(old(self).chars@, old(self).cursor as int),
            final(self).cursor == old(self).cursor + 1,
            final(self).chars == old(self).chars,
            final(self).unfinished_token == old(self).unfinished_token,
    {
        let c = self.current();
        self.cursor = self.cursor + 1;
        c
    }

    fn finish_text_token(&mut self) -> (t: TexToken)
        ensures
            t@ == tex_symbol(old(self).unfinished_token@),
            final(self).unfinished_token@ == Seq::<char>::empty(),
            final(self).cursor == old(self).cursor,
            final(self).chars == old(self).chars,
    {
        let s = self.unfinished_token.clone();
        self.unfinished_token = String::new();
        let t = TexToken {
            kind: TexTokenKind::Symbol(s),
            decoration: TexTokenDecoration { superscript: Vec::new(), subscript: Vec::new() },
        };
        assert(t@.superscript =~= seq![]);
        assert(t@.subscript =~= seq![]);
        t
    }

    /// `\command{arg1}{arg2}{arg3}`: reads the name after `\` and the arguments that follow it.
    fn parse_command(&mut self) -> (t: TexToken)
        requires
            old(self).unfinished_token@ == Seq::<char>::empty(),
            old(self).cursor <= old(self).chars.len(),
            old(self).chars.len() < usize::MAX / 2,
        ensures
            final(self).chars@ == old(self).chars@,
            final(self).unfinished_token@ == Seq::<char>::empty(),
            t@ == tex_command(old(self).chars@, old(self).cursor as int).0,
            final(self).cursor == old(self).cursor + tex_command(old(self).chars@, old(self).cursor as int).1,
            final(self).cursor <= 2 * old(self).chars.len() + 1 - old(self).cursor,
        decreases old(self).chars.len() - old(self).cursor,
    {
        let ghost cs = self.chars@;
        let ghost c0 = self.cursor as int;
        let ghost total = tex_command_name(cs, c0, seq![]);
        let mut name = String::new();
        let mut args: Vec<Vec<TexToken>> = Vec::new();
        loop
            invariant_except_break
                self.chars@ == cs,
                cs == old(self).chars@,
                c0 == old(self).cursor,
                cs.len() < usize::MAX / 2,
                self.unfinished_token@ == Seq::<char>::empty(),
                c0 <= self.cursor <= cs.len(),
                args@.len() == 0,
                ({
                    let (n, a, d) = tex_command_name(cs, self.cursor as int, name@);
                    n == total.0 && a == total.1 && self.cursor + d == c0 + total.2
                }),
            ensures
                self.chars@ == cs,
                self.unfinished_token@ == Seq::<char>::empty(),
                name@ == total.0,
                tex_groups_view(args@) == total.1,
                self.cursor == c0 + total.2,
                self.cursor <= 2 * cs.len() + 1 - c0,
            decreases cs.len() - self.cursor,
        {
            let c_opt = self.consume();
            match c_opt {
                None => {
                    assert(tex_groups_view(args@) =~= seq![]);
                    break;
                },
                Some(c) => {
                    if char_is_whitespace(c) {
                        assert(tex_groups_view(args@) =~= seq![]);
                        break;
                    } else if c == '{' {
                        self.cursor = self.cursor - 1;
                        assert(tex_groups_view(args@) =~= seq![]);
                        loop
                            invariant_except_break
                                self.chars@ == cs,
                                cs == old(self).chars@,
                                c0 == old(self).cursor,
                                cs.len() < usize::MAX / 2,
                                self.unfinished_token@ == Seq::<char>::empty(),
                                c0 <= self.cursor <= 2 * cs.len() + 1 - c0,
                                name@ == total.0,
                                ({
                                    let (al, d) = tex_command_args(cs, self.cursor as int, tex_groups_view(args@));
                                    al == total.1 && self.cursor + d == c0 + total.2
                                }),
                            ensures
                                self.chars@ == cs,
                                self.unfinished_token@ == Seq::<char>::empty(),
                                name@ == total.0,
                                tex_groups_view(args@) == total.1,
                                self.cursor == c0 + total.2,
                                self.cursor <= 2 * cs.len() + 1 - c0,
                            decreases tex_remaining(cs, self.cursor as int),
                        {
                            let cur = self.current();
                            match cur {
                                Some(ch) => {
                                    if ch == '{' {
                                        let ghost before = args@;
                                        self.consume();
                                        let a = self.parse();
                                        args.push(a);
                                        assert(tex_groups_view(args@) =~= tex_groups_view(before).push(tex_tokens_view(a@)));
                                    } else {
                                        break;
                                    }
                                },
                                None => break,
                            }
                        }
                        break;
                    } else if char_is_ascii_punctuation(c) {
                        self.cursor = self.cursor - 1;
                        assert(tex_groups_view(args@) =~= seq![]);
                        break;
                    } else {
                        push_char(&mut name, c);
                    }
                },
            }
        }
        let t = TexToken {
            kind: TexTokenKind::Command(TexCommand { name, arguments: args }),
            decoration: TexTokenDecoration { superscript: Vec::new(), subscript: Vec::new() },
        };
        proof {
            lemma_command_view(t);
        }
        assert(t@.superscript =~= seq![]);
        assert(t@.subscript =~= seq![]);
        t
    }

    /// Tokenizes up to the `}` that closes the current group, or to the end. Whitespace
    /// splits symbols, `\` starts a command, and `_` or `^` attach a subscript or a
    /// superscript (one character, or a `{...}` group) to the symbol before it. Empty
    /// symbols are dropped from the result.
    pub fn parse(&mut self) -> (tokens: Vec<TexToken>)
        requires
            old(self).pending() == Seq::<char>::empty(),
            old(self).position() < usize::MAX,
            old(self).text().len() < usize::MAX / 2,
        ensures
            final(self).text() == old(self).text(),
            final(self).pending() == Seq::<char>::empty(),
            tex_tokens_view(tokens@) == tex_parse(old(self).text(), old(self).position()).0,
            final(self).position() == old(self).position() + tex_parse(old(self).text(), old(self).position()).1,
            old(self).position() <= old(self).text().len() ==> final(self).position() <= 2
                * old(self).text().len() + 1 - old(self).position(),
        decreases old(self).text().len() - old(self).position(),
    {
        if self.cursor > self.chars.len() {
            // Past the end there is nothing to read: only the empty symbol, which is dropped.
            self.cursor = self.cursor + 1;
            let ghost e = seq![tex_symbol(seq![])];
            proof {
                reveal_with_fuel(Seq::filter, 2);
                assert(e.drop_last() =~= Seq::<TexTokenV>::empty());
                assert(e.filter(|t: TexTokenV| !tex_is_empty(t)) =~= Seq::<TexTokenV>::empty());
            }
            let v: Vec<TexToken> = Vec::new();
            assert(tex_tokens_view(v@) =~= Seq::<TexTokenV>::empty());
            return v;
        }
        let ghost cs = self.chars@;
        let ghost c0 = self.cursor as int;
        let ghost total = tex_parse_loop(cs, c0, 0, seq![], seq![]);
        let mut paren_level: usize = 0;
        let mut tokens: Vec<TexToken> = Vec::new();
        let mut current = self.consume();
        assert(tex_tokens_view(tokens@) =~= seq![]);
        loop
            invariant
                self.chars@ == cs,
                cs == old(self).chars@,
                c0 == old(self).cursor,
                cs.len() < usize::MAX / 2,
                c0 <= cs.len(),
                c0 + 1 <= self.cursor <= 2 * cs.len() + 1 - c0,
                current == text::char_at(cs, self.cursor - 1),
                current is Some ==> self.cursor <= cs.len(),
                paren_level <= self.cursor,
                ({
                    let (all, d) = tex_parse_loop(
                        cs,
                        self.cursor - 1,
                        paren_level as nat,
                        tex_tokens_view(tokens@),
                        self.unfinished_token@,
                    );
                    all == total.0 && self.cursor - 1 + d == c0 + total.1
                }),
            ensures
                current is None || (current == Some('}') && paren_level == 0),
            decreases tex_remaining(cs, self.cursor - 1),
        {
            let ch = match current {
                None => break,
                Some(ch) => ch,
            };
            let ghost before = tokens@;
            if ch == '\\' {
                let t1 = self.finish_text_token();
                tokens.push(t1);
                if self.current() == Some('\\') {
                    self.consume();
                    let nl = TexToken::new_plain(TexTokenKind::Newline);
                    assert(nl@.superscript =~= seq![]);
                    assert(nl@.subscript =~= seq![]);
                    assert(nl@ == tex_newline());
                    tokens.push(nl);
                    assert(tex_tokens_view(tokens@) =~= tex_tokens_view(before).push(t1@).push(nl@));
                } else {
                    let cmd = self.parse_command();
                    tokens.push(cmd);
                    assert(tex_tokens_view(tokens@) =~= tex_tokens_view(before).push(t1@).push(cmd@));
                }
            } else if ch == '{' {
                paren_level = paren_level + 1;
                push_char(&mut self.unfinished_token, ch);
            } else if ch == '}' {
                if paren_level == 0 {
                    break;
                }
                paren_level = paren_level - 1;
            } else if ch == '_' || ch == '^' {
                let ghost unf = self.unfinished_token@;
                let mut t = self.finish_text_token();
                let next = self.consume();
                match next {
                    Some(c) => {
                        if c == '{' {
                            let inner = self.parse();
                            if ch == '_' {
                                t.decoration.subscript = inner;
                            } else {
                                t.decoration.superscript = inner;
                            }
                            proof {
                                lemma_decoration_view(t);
                            }
                            assert(t@ == tex_decorated(unf, ch, tex_tokens_view(inner@)));
                        } else {
                            let mut s = String::new();
                            push_char(&mut s, c);
                            let p = TexToken::new_plain(TexTokenKind::Symbol(s));
                            let v = vec![p];
                            assert(p@.superscript =~= seq![]);
                            assert(p@.subscript =~= seq![]);
                            assert(p@ == tex_symbol(seq![c]));
                            assert(tex_tokens_view(v@) =~= seq![tex_symbol(seq![c])]);
                            if ch == '_' {
                                t.decoration.subscript = v;
                            } else {
                                t.decoration.superscript = v;
                            }
                            proof {
                                lemma_decoration_view(t);
                            }
                            assert(t@ == tex_decorated(unf, ch, seq![tex_symbol(seq![c])]));
                        }
                    },
                    None => {},
                }
                tokens.push(t);
                assert(tex_tokens_view(tokens@) =~= tex_tokens_view(before).push(t@));
            } else if char_is_whitespace(ch) {
                if !self.unfinished_token.as_str().is_empty() {
                    let t = self.finish_text_token();
                    tokens.push(t);
                    assert(tex_tokens_view(tokens@) =~= tex_tokens_view(before).push(t@));
                }
            } else {
                push_char(&mut self.unfinished_token, ch);
            }
            current = self.consume();
        }
        let t = self.finish_text_token();
        let ghost before = tokens@;
        tokens.push(t);
        assert(tex_tokens_view(tokens@) =~= tex_tokens_view(before).push(t@));
        assert(tex_tokens_view(tokens@) == total.0);
        keep_nonempty(tokens)
    }
}

/// The tokens of `tokens` that carry something, in order.
fn keep_nonempty(tokens: Vec<TexToken>) -> (out: Vec<TexToken>)
    ensures
        tex_tokens_view(out@) == tex_tokens_view(tokens@).filter(|t: TexTokenV| !tex_is_empty(t)),
{
    let ghost all = tokens@;
    let mut tokens = tokens;
    let mut rev: Vec<TexToken> = Vec::new();
    while tokens.len() > 0
        invariant
            tokens@.len() + rev@.len() == all.len(),
            tokens@ == all.take(tokens@.len() as int),
            forall|i: int| 0 <= i < rev@.len() ==> #[trigger] rev@[i] == all[all.len() - 1 - i],
        decreases tokens@.len(),
    {
        let t = tokens.pop().unwrap();
        rev.push(t);
    }
    let mut out: Vec<TexToken> = Vec::new();
    let ghost av = tex_tokens_view(all);
    assert(tex_tokens_view(out@) =~= av.take(0).filter(|t: TexTokenV| !tex_is_empty(t))) by {
        reveal(Seq::filter);
    }
    while rev.len() > 0
        invariant
            rev@.len() <= all.len(),
            forall|i: int| 0 <= i < rev@.len() ==> #[trigger] rev@[i] == all[all.len() - 1 - i],
            av == tex_tokens_view(all),
            tex_tokens_view(out@) == av.take(all.len() - rev@.len()).filter(|t: TexTokenV| !tex_is_empty(t)),
        decreases rev@.len(),
    {
        let ghost k = all.len() - rev@.len();
        let ghost before = out@;
        let t = rev.pop().unwrap();
        assert(t == all[k]);
        assert(av.take(k + 1) =~= av.take(k).push(av[k]));
        reveal(Seq::filter);
        assert(av.take(k + 1).drop_last() =~= av.take(k));
        if !t.is_empty() {
            out.push(t);
            assert(tex_tokens_view(out@) =~= tex_tokens_view(before).push(t@));
        }
    }
    assert(av.take(all.len() as int) =~= av);
    out
}

/// The value of a token is made of the values of its decorations.
proof fn lemma_decoration_view(t: TexToken)
    ensures
        t@.superscript == tex_tokens_view(t.decoration.superscript@),
        t@.subscript == tex_tokens_view(t.decoration.subscript@),
        t.kind matches TexTokenKind::Symbol(s) ==> t@.kind == TexKindV::Symbol(s@),
{
    assert(t@.superscript =~= tex_tokens_view(t.decoration.superscript@));
    assert(t@.subscript =~= tex_tokens_view(t.decoration.subscript@));
}

/// The value of a command token is made of its name and the values of its arguments.
proof fn lemma_command_view(t: TexToken)
    requires
        t.kind is Command,
    ensures
        t@.kind == TexKindV::Command(t.kind->Command_0.name@, tex_groups_view(t.kind->Command_0.arguments@)),
        t@.superscript == tex_tokens_view(t.decoration.superscript@),
        t@.subscript == tex_tokens_view(t.decoration.subscript@),
{
    lemma_decoration_view(t);
    let c = t.kind->Command_0;
    let g = tex_groups_view(c.arguments@);
    match t@.kind {
        TexKindV::Command(n, a) => {
            assert forall|i: int| 0 <= i < a.len() implies #[trigger] a[i] == g[i] by {
                assert(a[i] =~= g[i]);
            }
            assert(a =~= g);
        },
        _ => {},
    }
}

} // verus!

verus! {

/// `process_latex` leaves no newline behind, keeps the length, and changes nothing
/// but newlines.
pub proof fn lemma_process_latex_output(input: Seq<char>)
    ensures
        latex_text(input).len() == input.len(),
        forall|i: int|
            0 <= i < input.len() ==> #[trigger] latex_text(input)[i] != '\n' && (input[i] != '\n'
                ==> latex_text(input)[i] == input[i]),
{
}

/// Processing processed LaTeX changes nothing more.
pub proof fn lemma_process_latex_idempotent(input: Seq<char>)
    ensures
        latex_text(latex_text(input)) == latex_text(input),
{
    assert(latex_text(latex_text(input)) =~= latex_text(input));
}

/// A token group never holds a token that carries nothing.
pub proof fn lemma_parse_keeps_nonempty(cs: Seq<char>, c: int)
    ensures
        forall|i: int| 0 <= i < tex_parse(cs, c).0.len() ==> !tex_is_empty(#[trigger] tex_parse(cs, c).0[i]),
{
    let toks = tex_parse_loop(cs, c, 0, seq![], seq![]).0;
    assert forall|i: int| 0 <= i < tex_parse(cs, c).0.len() implies !tex_is_empty(#[trigger] tex_parse(cs, c).0[i]) by {
        toks.lemma_filter_pred(|t: TexTokenV| !tex_is_empty(t), i);
    }
}

/// `cs2` holds `cs` after `d` characters of its own.
pub open spec fn tex_shifted(cs2: Seq<char>, cs: Seq<char>, d: int) -> bool {
    &&& 0 <= d
    &&& cs2.len() == cs.len() + d
    &&& forall|i: int| 0 <= i < cs.len() ==> cs2[i + d] == #[trigger] cs[i]
}

/// A token group reads only what follows its start.
proof fn lemma_shift_parse(cs2: Seq<char>, cs: Seq<char>, d: int, c: int)
    requires
        tex_shifted(cs2, cs, d),
        0 <= c,
    ensures
        tex_parse(cs2, c + d) == tex_parse(cs, c),
    decreases tex_remaining(cs, c), 1nat,
{
    lemma_shift_loop(cs2, cs, d, c, 0, seq![], seq![]);
}

/// The group scan reads only what follows its position.
proof fn lemma_shift_loop(
    cs2: Seq<char>,
    cs: Seq<char>,
    d: int,
    pos: int,
    level: nat,
    toks: Seq<TexTokenV>,
    unf: Seq<char>,
)
    requires
        tex_shifted(cs2, cs, d),
        0 <= pos,
    ensures
        tex_parse_loop(cs2, pos + d, level, toks, unf) == tex_parse_loop(cs, pos, level, toks, unf),
    decreases tex_remaining(cs, pos), 0nat,
{
    if pos < cs.len() {
        let ch = cs[pos];
        assert(cs2[pos + d] == ch);
        if pos + 1 < cs.len() {
            assert(cs2[pos + 1 + d] == cs[pos + 1]);
        }
        if ch == '\\' && pos + 1 < cs.len() && cs[pos + 1] == '\\' {
            lemma_shift_loop(cs2, cs, d, pos + 2, level, toks.push(tex_symbol(unf)).push(tex_newline()), seq![]);
        } else if ch == '\\' {
            lemma_shift_command(cs2, cs, d, pos + 1);
            let (cmd, a) = tex_command(cs, pos + 1);
            lemma_shift_loop(cs2, cs, d, pos + 1 + a, level, toks.push(tex_symbol(unf)).push(cmd), seq![]);
        } else if ch == '{' {
            lemma_shift_loop(cs2, cs, d, pos + 1, level + 1, toks, unf.push('{'));
        } else if ch == '}' {
            if level != 0 {
                lemma_shift_loop(cs2, cs, d, pos + 1, (level - 1) as nat, toks, unf);
            }
        } else if ch == '_' || ch == '^' {
            if pos + 1 < cs.len() && cs[pos + 1] == '{' {
                lemma_shift_parse(cs2, cs, d, pos + 2);
                let (inner, a) = tex_parse(cs, pos + 2);
                lemma_shift_loop(cs2, cs, d, pos + 2 + a, level, toks.push(tex_decorated(unf, ch, inner)), seq![]);
            } else if pos + 1 < cs.len() {
                let dd = seq![tex_symbol(seq![cs[pos + 1]])];
                lemma_shift_loop(cs2, cs, d, pos + 2, level, toks.push(tex_decorated(unf, ch, dd)), seq![]);
            } else {
                lemma_shift_loop(cs2, cs, d, pos + 2, level, toks.push(tex_symbol(unf)), seq![]);
            }
        } else if text::is_white_space(ch) {
            if unf.len() > 0 {
                lemma_shift_loop(cs2, cs, d, pos + 1, level, toks.push(tex_symbol(unf)), seq![]);
            } else {
                lemma_shift_loop(cs2, cs, d, pos + 1, level, toks, unf);
            }
        } else {
            lemma_shift_loop(cs2, cs, d, pos + 1, level, toks, unf.push(ch));
        }
    }
}

/// A command reads only what follows its name's start.
proof fn lemma_shift_command(cs2: Seq<char>, cs: Seq<char>, d: int, c: int)
    requires
        tex_shifted(cs2, cs, d),
        0 <= c,
    ensures
        tex_command(cs2, c + d) == tex_command(cs, c),
    decreases tex_remaining(cs, c), 2nat,
{
    lemma_shift_name(cs2, cs, d, c, seq![]);
}

/// The name scan reads only what follows its position.
proof fn lemma_shift_name(cs2: Seq<char>, cs: Seq<char>, d: int, pos: int, name: Seq<char>)
    requires
        tex_shifted(cs2, cs, d),
        0 <= pos,
    ensures
        tex_command_name(cs2, pos + d, name) == tex_command_name(cs, pos, name),
    decreases tex_remaining(cs, pos), 1nat,
{
    if pos < cs.len() {
        let ch = cs[pos];
        assert(cs2[pos + d] == ch);
        if text::is_white_space(ch) {
        } else if ch == '{' {
            lemma_shift_args(cs2, cs, d, pos, seq![]);
        } else if text::is_ascii_punct(ch) {
        } else {
            lemma_shift_name(cs2, cs, d, pos + 1, name.push(ch));
        }
    }
}

/// The argument scan reads only what follows its position.
proof fn lemma_shift_args(cs2: Seq<char>, cs: Seq<char>, d: int, pos: int, args: Seq<Seq<TexTokenV>>)
    requires
        tex_shifted(cs2, cs, d),
        0 <= pos,
    ensures
        tex_command_args(cs2, pos + d, args) == tex_command_args(cs, pos, args),
    decreases tex_remaining(cs, pos), 0nat,
{
    if pos < cs.len() {
        assert(cs2[pos + d] == cs[pos]);
        if cs[pos] == '{' {
            lemma_shift_parse(cs2, cs, d, pos + 1);
            let (arg, a) = tex_parse(cs, pos + 1);
            lemma_shift_args(cs2, cs, d, pos + 1 + a, args.push(arg));
        }
    }
}

/// Leading whitespace changes nothing of the tokens of a TeX text; the cursor only
/// moves one further.
pub proof fn lemma_parse_leading_whitespace(w: char, cs: Seq<char>)
    requires
        text::is_white_space(w),
    ensures
        tex_parse(seq![w] + cs, 0).0 == tex_parse(cs, 0).0,
        tex_parse(seq![w] + cs, 0).1 == tex_parse(cs, 0).1 + 1,
{
    let cs2 = seq![w] + cs;
    assert(cs2[0] == w);
    assert forall|i: int| 0 <= i < cs.len() implies cs2[i + 1] == #[trigger] cs[i] by {}
    lemma_shift_loop(cs2, cs, 1, 0, 0, seq![], seq![]);
    assert(tex_parse_loop(cs2, 0, 0, seq![], seq![]) == (
        tex_parse_loop(cs2, 1, 0, seq![], seq![]).0,
        1 + tex_parse_loop(cs2, 1, 0, seq![], seq![]).1,
    ));
}

/// No character of `cs` from `pos` on opens or closes a group or starts a command.
pub open spec fn tex_flat_from(cs: Seq<char>, pos: int) -> bool {
    forall|j: int| pos <= j < cs.len() ==> #[trigger] cs[j] != '{' && cs[j] != '}' && cs[j] != '\\'
}

/// Where no group opens or closes, how many groups are open changes no token.
proof fn lemma_level_free(cs: Seq<char>, pos: int, l1: nat, l2: nat, toks: Seq<TexTokenV>, unf: Seq<char>)
    requires
        0 <= pos,
        tex_flat_from(cs, pos),
    ensures
        tex_parse_loop(cs, pos, l1, toks, unf).0 == tex_parse_loop(cs, pos, l2, toks, unf).0,
    decreases tex_remaining(cs, pos),
{
    if pos < cs.len() {
        let ch = cs[pos];
        assert(ch != '{' && ch != '}' && ch != '\\');
        if ch == '_' || ch == '^' {
            if pos + 1 < cs.len() {
                assert(cs[pos + 1] != '{');
                let d = seq![tex_symbol(seq![cs[pos + 1]])];
                lemma_level_free(cs, pos + 2, l1, l2, toks.push(tex_decorated(unf, ch, d)), seq![]);
            } else {
                lemma_level_free(cs, pos + 2, l1, l2, toks.push(tex_symbol(unf)), seq![]);
            }
        } else if text::is_white_space(ch) {
            if unf.len() > 0 {
                lemma_level_free(cs, pos + 1, l1, l2, toks.push(tex_symbol(unf)), seq![]);
            } else {
                lemma_level_free(cs, pos + 1, l1, l2, toks, unf);
            }
        } else {
            lemma_level_free(cs, pos + 1, l1, l2, toks, unf.push(ch));
        }
    }
}

/// Reading `{a}b` and `{ab}` alike from inside the group, up to the end of `a`.
proof fn lemma_brace_prefix(
    a: Seq<char>,
    b: Seq<char>,
    k: int,
    toks: Seq<TexTokenV>,
    unf: Seq<char>,
)
    requires
        forall|j: int| 0 <= j < a.len() ==> #[trigger] a[j] != '{' && a[j] != '}' && a[j] != '\\' && a[j] != '_'
            && a[j] != '^',
        tex_flat_from(b, 0),
        0 <= k <= a.len(),
    ensures
        tex_parse_loop(seq!['{'] + a + seq!['}'] + b, 1 + k, 1, toks, unf).0 == tex_parse_loop(
            seq!['{'] + a + b,
            1 + k,
            1,
            toks,
            unf,
        ).0,
    decreases a.len() - k,
{
    let cs1 = seq!['{'] + a + seq!['}'] + b;
    let cs2 = seq!['{'] + a + b;
    let na = a.len() as int;
    if k < na {
        let c = a[k];
        assert(cs1[1 + k] == c);
        assert(cs2[1 + k] == c);
        if text::is_white_space(c) {
            if unf.len() > 0 {
                lemma_brace_prefix(a, b, k + 1, toks.push(tex_symbol(unf)), seq![]);
            } else {
                lemma_brace_prefix(a, b, k + 1, toks, unf);
            }
        } else {
            lemma_brace_prefix(a, b, k + 1, toks, unf.push(c));
        }
    } else {
        assert(cs1[1 + na] == '}');
        assert forall|i: int| 0 <= i < b.len() implies cs1[i + (na + 2)] == #[trigger] b[i] by {}
        assert forall|i: int| 0 <= i < b.len() implies cs2[i + (na + 1)] == #[trigger] b[i] by {}
        lemma_shift_loop(cs1, b, na + 2, 0, 0, toks, unf);
        lemma_shift_loop(cs2, b, na + 1, 0, 1, toks, unf);
        lemma_level_free(b, 0, 0, 1, toks, unf);
    }
}

/// A `}` ends a token group only when it closes no `{` of that group: one that closes
/// a `{` is dropped and the group reads on, so `{a}b` gives the tokens of `{ab` (for
/// `a` without braces, `\`, `_` or `^`, and `b` without braces or `\`).
pub proof fn lemma_closed_brace_continues_group(a: Seq<char>, b: Seq<char>)
    requires
        forall|j: int| 0 <= j < a.len() ==> #[trigger] a[j] != '{' && a[j] != '}' && a[j] != '\\' && a[j] != '_'
            && a[j] != '^',
        forall|j: int| 0 <= j < b.len() ==> #[trigger] b[j] != '{' && b[j] != '}' && b[j] != '\\',
    ensures
        tex_parse(seq!['{'] + a + seq!['}'] + b, 0).0 == tex_parse(seq!['{'] + a + b, 0).0,
{
    let cs1 = seq!['{'] + a + seq!['}'] + b;
    let cs2 = seq!['{'] + a + b;
    assert(cs1[0] == '{');
    assert(cs2[0] == '{');
    lemma_brace_prefix(a, b, 0, seq![], seq!['{']);
    assert(seq![].push('{') =~= seq!['{']);
}

} // verus!
