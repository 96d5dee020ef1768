//! A very barebones tokenizer for Ninja build files.
//!
//! The tokens of a file are given by [`lex_step`]: at each position the
//! longest token that can start there is taken. Comments and line
//! continuations are skipped. A position where no token can start yields
//! an error item, and lexing resumes at the next character.

use crate::ninja::model::{Error, Pos};
use crate::text::{chars_of, string_push};
use vstd::prelude::*;

verus! {

/// A token of a Ninja file.
#[derive(Debug)]
pub enum Token {
    /// A line feed followed by indentation spaces of the next line
    IndentedLineFeed,
    /// A line feed without indentation
    LineFeed,
    /// Spaces
    Spaces(String),
    /// `$` followed by one of ` $:` or a tab: an escaped character
    Escaped(char),
    /// `$ident`: a variable replacement
    Variable(String),
    /// `${ident}`: also a variable replacement
    BracedVariable(String),
    /// A colon for separating build outputs from inputs
    Colon,
    /// A single pipe for separating normal inputs from implicit inputs
    Pipe,
    /// A double pipe for separating implicit inputs from order-only inputs
    TwoPipe,
    /// An equal sign for variable assignment
    Equal,
    /// A word segment without escaping
    Word(String),
}

/// The mathematical value of a [`Token`].
pub enum TokenView {
    IndentedLineFeed,
    LineFeed,
    Spaces(Seq<char>),
    Escaped(char),
    Variable(Seq<char>),
    BracedVariable(Seq<char>),
    Colon,
    Pipe,
    TwoPipe,
    Equal,
    Word(Seq<char>),
}

impl View for Token {
    type V = TokenView;

    open spec fn view(&self) -> TokenView {
        match self {
            Token::IndentedLineFeed => TokenView::IndentedLineFeed,
            Token::LineFeed => TokenView::LineFeed,
            Token::Spaces(s) => TokenView::Spaces(s@),
            Token::Escaped(c) => TokenView::Escaped(*c),
            Token::Variable(s) => TokenView::Variable(s@),
            Token::BracedVariable(s) => TokenView::BracedVariable(s@),
            Token::Colon => TokenView::Colon,
            Token::Pipe => TokenView::Pipe,
            Token::TwoPipe => TokenView::TwoPipe,
            Token::Equal => TokenView::Equal,
            Token::Word(s) => TokenView::Word(s@),
        }
    }
}

/// The token can be the start of a word: a word segment, an escaped
/// character or a variable.
pub open spec fn starts_word(t: TokenView) -> bool {
    t is Word || t is Escaped || t is Variable || t is BracedVariable
}

impl Token {
    /// Whether the token can be the start of a word.
    pub fn can_start_word(&self) -> (r: bool)
        ensures
            r == starts_word(self@),
    {
        match self {
            Token::Word(_) | Token::Escaped(_) | Token::Variable(_) | Token::BracedVariable(_) => true,
            _ => false,
        }
    }

    /// A copy of the token.
    pub fn copy(&self) -> (r: Token)
        ensures
            r@ == self@,
    {
        match self {
            Token::IndentedLineFeed => Token::IndentedLineFeed,
            Token::LineFeed => Token::LineFeed,
            Token::Spaces(s) => Token::Spaces(s.clone()),
            Token::Escaped(c) => Token::Escaped(*c),
            Token::Variable(s) => Token::Variable(s.clone()),
            Token::BracedVariable(s) => Token::BracedVariable(s.clone()),
            Token::Colon => Token::Colon,
            Token::Pipe => Token::Pipe,
            Token::TwoPipe => Token::TwoPipe,
            Token::Equal => Token::Equal,
            Token::Word(s) => Token::Word(s.clone()),
        }
    }
}

/// White space in the Unicode sense, the class `\s` of the token
/// patterns.
pub open spec fn is_ws(c: char) -> bool {
    let u = c as u32;
    (0x09 <= u <= 0x0d) || u == 0x20 || u == 0x85 || u == 0xa0 || u == 0x1680 || (0x2000 <= u <= 0x200a) || u
        == 0x2028 || u == 0x2029 || u == 0x202f || u == 0x205f || u == 0x3000
}

/// The classes of characters that tokens are made of.
#[derive(Clone, Copy, PartialEq, Eq, Structural)]
pub enum CharClass {
    /// A space or a tab.
    Space,
    /// A letter, a digit or an underscore.
    IdentChar,
    /// Any character but `=`, `$`, `:`, `|` and white space.
    WordChar,
    /// Any character but `}`, `$` and white space.
    BraceChar,
    /// Any character but a line feed.
    NotLineFeed,
}

/// The characters of a class.
pub open spec fn in_class(k: CharClass, c: char) -> bool {
    match k {
        CharClass::Space => c == ' ' || c == '\t',
        CharClass::IdentChar => ident_start(c) || ('0' <= c && c <= '9'),
        CharClass::WordChar => !(c == '=' || is_ws(c) || c == '$' || c == ':' || c == '|'),
        CharClass::BraceChar => !(c == '}' || is_ws(c) || c == '$'),
        CharClass::NotLineFeed => c != '\n',
    }
}

/// A character that can start a variable name.
pub open spec fn ident_start(c: char) -> bool {
    ('a' <= c && c <= 'z') || ('A' <= c && c <= 'Z') || c == '_'
}

/// The number of characters of class `k` in a row from `i`.
pub open spec fn run_len(s: Seq<char>, i: int, k: CharClass) -> nat
    decreases s.len() - i,
{
    if 0 <= i < s.len() && in_class(k, s[i]) {
        1 + run_len(s, i + 1, k)
    } else {
        0
    }
}

/// The length of the line break at `i`: `\n` or `\r\n`, or none.
pub open spec fn newline_len(s: Seq<char>, i: int) -> nat {
    if 0 <= i < s.len() && s[i] == '\n' {
        1
    } else if 0 <= i && i + 1 < s.len() && s[i] == '\r' && s[i + 1] == '\n' {
        2
    } else {
        0
    }
}

/// What the lexer finds at a position.
pub enum StepView {
    /// The end of the input.
    End,
    /// A comment or a line continuation, of this many characters.
    Skip(nat),
    /// A token, of this many characters.
    Tok(TokenView, nat),
    /// No token can start here.
    Bad,
}

/// What the lexer finds at position `i`: the longest token that starts
/// there.
pub open spec fn lex_step(s: Seq<char>, i: int) -> StepView {
    if i < 0 || i >= s.len() {
        StepView::End
    } else if newline_len(s, i) > 0 {
        let n = newline_len(s, i);
        let k = run_len(s, i + n, CharClass::Space);
        if k > 0 {
            StepView::Tok(TokenView::IndentedLineFeed, n + k)
        } else {
            StepView::Tok(TokenView::LineFeed, n)
        }
    } else if s[i] == ' ' || s[i] == '\t' {
        let k = run_len(s, i, CharClass::Space);
        StepView::Tok(TokenView::Spaces(s.subrange(i, i + k)), k)
    } else if s[i] == '$' {
        if i + 1 >= s.len() {
            StepView::Bad
        } else if s[i + 1] == '$' || s[i + 1] == ' ' || s[i + 1] == '\t' || s[i + 1] == ':' {
            StepView::Tok(TokenView::Escaped(s[i + 1]), 2)
        } else if ident_start(s[i + 1]) {
            let k = run_len(s, i + 1, CharClass::IdentChar);
            StepView::Tok(TokenView::Variable(s.subrange(i + 1, i + 1 + k)), 1 + k)
        } else if s[i + 1] == '{' {
            let k = run_len(s, i + 2, CharClass::BraceChar);
            if i + 2 + k < s.len() && s[i + 2 + k] == '}' {
                StepView::Tok(TokenView::BracedVariable(s.subrange(i + 2, i + 2 + k)), k + 3)
            } else {
                StepView::Bad
            }
        } else if newline_len(s, i + 1) > 0 {
            StepView::Skip(1 + newline_len(s, i + 1))
        } else {
            StepView::Bad
        }
    } else if s[i] == '#' && i + 1 + run_len(s, i + 1, CharClass::NotLineFeed) < s.len() {
        StepView::Skip(run_len(s, i + 1, CharClass::NotLineFeed) + 2)
    } else if s[i] == ':' {
        StepView::Tok(TokenView::Colon, 1)
    } else if s[i] == '|' {
        if i + 1 < s.len() && s[i + 1] == '|' {
            StepView::Tok(TokenView::TwoPipe, 2)
        } else {
            StepView::Tok(TokenView::Pipe, 1)
        }
    } else if s[i] == '=' {
        StepView::Tok(TokenView::Equal, 1)
    } else if in_class(CharClass::WordChar, s[i]) {
        let k = run_len(s, i, CharClass::WordChar);
        StepView::Tok(TokenView::Word(s.subrange(i, i + k)), k)
    } else {
        StepView::Bad
    }
}

/// An item of the token stream: a token, or a position where none can
/// start.
pub enum Lexed {
    Tok(TokenView),
    Bad,
}

/// The token stream of `s` from position `i`.
pub open spec fn raw_tokens(s: Seq<char>, i: int) -> Seq<Lexed>
    decreases s.len() - i,
{
    if i < 0 || i >= s.len() {
        Seq::empty()
    } else {
        let st = lex_step(s, i);
        let n: int = match st {
            StepView::Skip(n) => n as int,
            StepView::Tok(_, n) => n as int,
            _ => 1,
        };
        let head: Seq<Lexed> = match st {
            StepView::Tok(t, _) => seq![Lexed::Tok(t)],
            StepView::Bad => seq![Lexed::Bad],
            _ => Seq::empty(),
        };
        if st is End || n <= 0 || i + n > s.len() {
            Seq::empty()
        } else {
            head + raw_tokens(s, i + n)
        }
    }
}

/// The token stream of a whole input.
pub open spec fn tokens_of(s: Seq<char>) -> Seq<Lexed> {
    raw_tokens(s, 0)
}

/// Whether a character is white space.
pub fn is_whitespace(c: char) -> (r: bool)
    ensures
        r == is_ws(c),
{
    let u = c as u32;
    (0x09 <= u && u <= 0x0d) || u == 0x20 || u == 0x85 || u == 0xa0 || u == 0x1680 || (0x2000 <= u && u <= 0x200a)
        || u == 0x2028 || u == 0x2029 || u == 0x202f || u == 0x205f || u == 0x3000
}

/// Whether a character can start a variable name.
fn is_ident_start(c: char) -> (r: bool)
    ensures
        r == ident_start(c),
{
    ('a' <= c && c <= 'z') || ('A' <= c && c <= 'Z') || c == '_'
}

/// Whether a character is of a class.
fn is_in_class(k: CharClass, c: char) -> (r: bool)
    ensures
        r == in_class(k, c),
{
    match k {
        CharClass::Space => c == ' ' || c == '\t',
        CharClass::IdentChar => is_ident_start(c) || ('0' <= c && c <= '9'),
        CharClass::WordChar => !(c == '=' || is_whitespace(c) || c == '$' || c == ':' || c == '|'),
        CharClass::BraceChar => !(c == '}' || is_whitespace(c) || c == '$'),
        CharClass::NotLineFeed => c != '\n',
    }
}

/// The number of characters of class `k` in a row from `i`.
fn scan_run(s: &Vec<char>, i: usize, k: CharClass) -> (n: usize)
    requires
        i <= s@.len(),
    ensures
        n == run_len(s@, i as int, k),
        i + n <= s@.len(),
{
    let mut j = i;
    while j < s.len() && is_in_class(k, s[j])
        invariant
            i <= j <= s@.len(),
            run_len(s@, i as int, k) == (j - i) + run_len(s@, j as int, k),
        decreases s@.len() - j,
    {
        j = j + 1;
    }
    j - i
}

/// The length of the line break at `i`.
fn scan_newline(s: &Vec<char>, i: usize) -> (n: usize)
    requires
        i <= s@.len(),
    ensures
        n == newline_len(s@, i as int),
{
    if i < s.len() && s[i] == '\n' {
        1
    } else if i < s.len() && s.len() - i > 1 && s[i] == '\r' && s[i + 1] == '\n' {
        2
    } else {
        0
    }
}

/// The characters `s[from..to]` as a string.
pub fn string_of(s: &Vec<char>, from: usize, to: usize) -> (r: String)
    requires
        from <= to <= s@.len(),
    ensures
        r@ == s@.subrange(from as int, to as int),
{
    let mut r = String::new();
    let mut j = from;
    while j < to
        invariant
            from <= j <= to <= s@.len(),
            r@ == s@.subrange(from as int, j as int),
        decreases to - j,
    {
        string_push(&mut r, s[j]);
        assert(s@.subrange(from as int, j + 1) =~= s@.subrange(from as int, j as int).push(s@[j as int]));
        j = j + 1;
    }
    r
}

/// What the lexer finds at a position, as a value.
pub enum Step {
    End,
    Skip(usize),
    Tok(Token, usize),
    Bad,
}

/// The mathematical value of a [`Step`].
pub open spec fn step_view(st: Step) -> StepView {
    match st {
        Step::End => StepView::End,
        Step::Skip(n) => StepView::Skip(n as nat),
        Step::Tok(t, n) => StepView::Tok(t@, n as nat),
        Step::Bad => StepView::Bad,
    }
}

/// What the lexer finds at position `i`.
pub fn lex_at(s: &Vec<char>, i: usize) -> (r: Step)
    requires
        i <= s@.len(),
    ensures
        step_view(r) == lex_step(s@, i as int),
        match r {
            Step::Skip(n) => 0 < n && i + n <= s@.len(),
            Step::Tok(_, n) => 0 < n && i + n <= s@.len(),
            Step::Bad => i < s@.len(),
            Step::End => i == s@.len(),
        },
{
    let len = s.len();
    if i >= len {
        return Step::End;
    }
    let nl = scan_newline(s, i);
    if nl > 0 {
        let k = scan_run(s, i + nl, CharClass::Space);
        if k > 0 {
            return Step::Tok(Token::IndentedLineFeed, nl + k);
        } else {
            return Step::Tok(Token::LineFeed, nl);
        }
    }
    let c = s[i];
    if c == ' ' || c == '\t' {
        let k = scan_run(s, i, CharClass::Space);
        return Step::Tok(Token::Spaces(string_of(s, i, i + k)), k);
    }
    if c == '$' {
        if i + 1 >= len {
            return Step::Bad;
        }
        let d = s[i + 1];
        if d == '$' || d == ' ' || d == '\t' || d == ':' {
            return Step::Tok(Token::Escaped(d), 2);
        }
        if is_ident_start(d) {
            let k = scan_run(s, i + 1, CharClass::IdentChar);
            return Step::Tok(Token::Variable(string_of(s, i + 1, i + 1 + k)), 1 + k);
        }
        if d == '{' {
            let k = scan_run(s, i + 2, CharClass::BraceChar);
            if i + 2 + k < len && s[i + 2 + k] == '}' {
                return Step::Tok(Token::BracedVariable(string_of(s, i + 2, i + 2 + k)), k + 3);
            } else {
                return Step::Bad;
            }
        }
        let n2 = scan_newline(s, i + 1);
        if n2 > 0 {
            return Step::Skip(1 + n2);
        }
        return Step::Bad;
    }
    if c == '#' {
        let k = scan_run(s, i + 1, CharClass::NotLineFeed);
        if i + 1 + k < len {
            return Step::Skip(k + 2);
        }
    }
    if c == ':' {
        return Step::Tok(Token::Colon, 1);
    }
    if c == '|' {
        if i + 1 < len && s[i + 1] == '|' {
            return Step::Tok(Token::TwoPipe, 2);
        } else {
            return Step::Tok(Token::Pipe, 1);
        }
    }
    if c == '=' {
        return Step::Tok(Token::Equal, 1);
    }
    if is_in_class(CharClass::WordChar, c) {
        let k = scan_run(s, i, CharClass::WordChar);
        return Step::Tok(Token::Word(string_of(s, i, i + k)), k);
    }
    Step::Bad
}

/// The number of bytes of a character in UTF-8.
pub open spec fn utf8_width(c: char) -> nat {
    let u = c as u32;
    if u < 0x80 {
        1
    } else if u < 0x800 {
        2
    } else if u < 0x10000 {
        3
    } else {
        4
    }
}

/// The number of line feeds in `t`.
pub open spec fn count_line_feeds(t: Seq<char>) -> nat
    decreases t.len(),
{
    if t.len() == 0 {
        0
    } else {
        count_line_feeds(t.drop_last()) + if t.last() == '\n' {
            1nat
        } else {
            0nat
        }
    }
}

/// The number of bytes after the last line feed of `t`, saturated at the
/// largest `usize`.
pub open spec fn last_line_width(t: Seq<char>) -> nat
    decreases t.len(),
{
    if t.len() == 0 {
        0
    } else if t.last() == '\n' {
        0
    } else {
        let w = last_line_width(t.drop_last()) + utf8_width(t.last());
        if w > usize::MAX {
            usize::MAX as nat
        } else {
            w
        }
    }
}

/// The byte width of a character in UTF-8.
fn char_width(c: char) -> (n: usize)
    ensures
        n == utf8_width(c),
{
    let u = c as u32;
    if u < 0x80 {
        1
    } else if u < 0x800 {
        2
    } else if u < 0x10000 {
        3
    } else {
        4
    }
}

/// How far the text `s[from..to]` moves a position: the number of line
/// feeds in it, and the byte length of its last line.
pub fn line_col_offset(s: &Vec<char>, from: usize, to: usize) -> (r: (usize, usize))
    requires
        from <= to <= s@.len(),
    ensures
        r.0 == count_line_feeds(s@.subrange(from as int, to as int)),
        r.1 == last_line_width(s@.subrange(from as int, to as int)),
{
    let mut lines: usize = 0;
    let mut col: usize = 0;
    let mut j = from;
    while j < to
        invariant
            from <= j <= to <= s@.len(),
            lines <= j - from,
            lines == count_line_feeds(s@.subrange(from as int, j as int)),
            col == last_line_width(s@.subrange(from as int, j as int)),
        decreases to - j,
    {
        let c = s[j];
        proof {
            let t = s@.subrange(from as int, j + 1);
            assert(t.drop_last() =~= s@.subrange(from as int, j as int));
            assert(t.last() == c);
        }
        if c == '\n' {
            lines = lines + 1;
            col = 0;
        } else {
            col = col.saturating_add(char_width(c));
        }
        j = j + 1;
    }
    (lines, col)
}

/// The lexer over a Ninja file, with one token of look-ahead.
pub struct Lexer {
    chars: Vec<char>,
    /// The index of the next character to lex
    idx: usize,
    /// The starting position of the token just lexed
    pos: Pos,
    /// The ending position of the token just lexed
    pos_end: Pos,
    /// The token looked at but not taken
    peeked: Option<Token>,
    peeked_pos: Option<Pos>,
}

impl Lexer {
    /// The items the lexer has yet to hand out, the looked-at token first.
    pub closed spec fn remaining(&self) -> Seq<Lexed> {
        match self.peeked {
            Some(t) => seq![Lexed::Tok(t@)] + raw_tokens(self.chars@, self.idx as int),
            None => raw_tokens(self.chars@, self.idx as int),
        }
    }

    /// The lexer's invariant.
    pub closed spec fn wf(&self) -> bool {
        self.idx <= self.chars@.len()
    }

    /// A lexer over a whole text.
    pub fn new(s: &str) -> (l: Lexer)
        ensures
            l.wf(),
            l.remaining() == tokens_of(s@),
    {
        Lexer {
            chars: chars_of(s),
            idx: 0,
            pos: Pos::new(0, 0),
            pos_end: Pos::new(0, 0),
            peeked: None,
            peeked_pos: None,
        }
    }

    /// Lex the next item, skipping comments and line continuations.
    fn next_inner(&mut self) -> (r: Option<Result<Token, Error>>)
        requires
            old(self).wf(),
        ensures
            final(self).wf(),
            final(self).peeked == old(self).peeked,
            final(self).chars@ == old(self).chars@,
            match r {
                None => raw_tokens(old(self).chars@, old(self).idx as int).len() == 0 && raw_tokens(
                    final(self).chars@,
                    final(self).idx as int,
                ).len() == 0,
                Some(Ok(t)) => raw_tokens(old(self).chars@, old(self).idx as int) == seq![Lexed::Tok(t@)] + raw_tokens(
                    final(self).chars@,
                    final(self).idx as int,
                ),
                Some(Err(e)) => e is UnrecognizedToken && raw_tokens(old(self).chars@, old(self).idx as int) == seq![
                    Lexed::Bad,
                ] + raw_tokens(final(self).chars@, final(self).idx as int),
            },
    {
        let ghost start = raw_tokens(self.chars@, self.idx as int);
        loop
            invariant
                self.wf(),
                self.peeked == old(self).peeked,
                self.chars@ == old(self).chars@,
                raw_tokens(self.chars@, self.idx as int) == start,
                start == raw_tokens(old(self).chars@, old(self).idx as int),
            decreases self.chars@.len() - self.idx,
        {
            let _len = self.chars.len();
            let step = lex_at(&self.chars, self.idx);
            let n: usize = match &step {
                Step::End => {
                    return None;
                },
                Step::Skip(n) => *n,
                Step::Tok(_, n) => *n,
                Step::Bad => 1,
            };
            proof {
                match step {
                    Step::Skip(k) => assert(n == k),
                    Step::Tok(_, k) => assert(n == k),
                    Step::Bad => assert(n == 1),
                    Step::End => {},
                }
            }
            let end = self.idx + n;
            let (line_offset, col_offset) = line_col_offset(&self.chars, self.idx, end);
            self.pos = self.pos_end;
            let mut new_pos_end = self.pos_end;
            if line_offset > 0 {
                new_pos_end.line = new_pos_end.line.saturating_add(line_offset);
                new_pos_end.column = col_offset;
            } else {
                new_pos_end.column = new_pos_end.column.saturating_add(col_offset);
            }
            self.pos_end = new_pos_end;
            self.idx = end;
            match step {
                Step::Skip(_) => {},
                Step::Tok(t, _) => {
                    return Some(Ok(t));
                },
                _ => {
                    return Some(Err(Error::UnrecognizedToken(self.pos.line, self.pos.column)));
                },
            }
        }
    }

    /// Take the next item.
    pub fn next(&mut self) -> (r: Option<Result<Token, Error>>)
        requires
            old(self).wf(),
        ensures
            final(self).wf(),
            match r {
                None => old(self).remaining().len() == 0 && final(self).remaining().len() == 0,
                Some(Ok(t)) => old(self).remaining() == seq![Lexed::Tok(t@)] + final(self).remaining(),
                Some(Err(e)) => e is UnrecognizedToken && old(self).remaining() == seq![Lexed::Bad]
                    + final(self).remaining(),
            },
    {
        match self.peeked.take() {
            Some(tok) => {
                self.peeked_pos = None;
                Some(Ok(tok))
            },
            None => self.next_inner(),
        }
    }

    /// Look at the next token without taking it. A position where no token
    /// can start is taken, and its error handed back.
    pub fn peek(&mut self) -> (r: Result<Option<Token>, Error>)
        requires
            old(self).wf(),
        ensures
            final(self).wf(),
            match r {
                Ok(None) => old(self).remaining().len() == 0 && final(self).remaining().len() == 0,
                Ok(Some(t)) => old(self).remaining().len() > 0 && old(self).remaining()[0] == Lexed::Tok(t@)
                    && final(self).remaining() == old(self).remaining(),
                Err(e) => e is UnrecognizedToken && old(self).remaining() == seq![Lexed::Bad]
                    + final(self).remaining(),
            },
    {
        match &self.peeked {
            Some(tok) => {
                return Ok(Some(tok.copy()));
            },
            None => {},
        }
        match self.next_inner() {
            None => {
                self.peeked_pos = None;
                Ok(None)
            },
            Some(Ok(tok)) => {
                let r = tok.copy();
                self.peeked = Some(tok);
                self.peeked_pos = Some(self.pos);
                Ok(Some(r))
            },
            Some(Err(e)) => Err(e),
        }
    }

    /// The position of the token looked at, if any.
    pub closed spec fn spec_peeked_pos(&self) -> Option<Pos> {
        self.peeked_pos
    }

    /// The starting position of the token lexed last.
    pub closed spec fn spec_pos(&self) -> Pos {
        self.pos
    }

    /// The position of the token looked at, if any.
    pub fn peeked_pos(&self) -> (r: Option<Pos>)
        ensures
            r == self.spec_peeked_pos(),
    {
        self.peeked_pos
    }

    /// The starting position of the token lexed last.
    pub fn cursor_pos(&self) -> (r: Pos)
        ensures
            r == self.spec_pos(),
    {
        self.pos
    }
}

/// The stream after skipping spaces: leading space tokens are dropped, and
/// an item where no token starts is dropped too, ending the skip.
pub open spec fn after_spaces(ts: Seq<Lexed>) -> Seq<Lexed>
    decreases ts.len(),
{
    if ts.len() == 0 {
        ts
    } else {
        match ts[0] {
            Lexed::Tok(TokenView::Spaces(_)) => after_spaces(ts.drop_first()),
            Lexed::Bad => ts.drop_first(),
            _ => ts,
        }
    }
}

/// What eating line breaks does to a stream: whether the next line is
/// indented, and the stream after. Each line break is dropped; the last one
/// decides the indentation. An item where no token starts is dropped and
/// ends the eating, as the end of the input does, with no indentation.
pub open spec fn eat_newlines_spec(ts: Seq<Lexed>, indented: bool) -> (bool, Seq<Lexed>)
    decreases ts.len(),
{
    if ts.len() == 0 {
        (false, ts)
    } else {
        match ts[0] {
            Lexed::Tok(TokenView::IndentedLineFeed) => eat_newlines_spec(ts.drop_first(), true),
            Lexed::Tok(TokenView::LineFeed) => eat_newlines_spec(ts.drop_first(), false),
            Lexed::Bad => (false, ts.drop_first()),
            _ => (indented, ts),
        }
    }
}

/// Whether two tokens are the same.
pub fn same_token(a: &Token, b: &Token) -> (r: bool)
    ensures
        r == (a@ == b@),
{
    match (a, b) {
        (Token::IndentedLineFeed, Token::IndentedLineFeed) => true,
        (Token::LineFeed, Token::LineFeed) => true,
        (Token::Spaces(x), Token::Spaces(y)) => x.eq(y),
        (Token::Escaped(x), Token::Escaped(y)) => *x == *y,
        (Token::Variable(x), Token::Variable(y)) => x.eq(y),
        (Token::BracedVariable(x), Token::BracedVariable(y)) => x.eq(y),
        (Token::Colon, Token::Colon) => true,
        (Token::Pipe, Token::Pipe) => true,
        (Token::TwoPipe, Token::TwoPipe) => true,
        (Token::Equal, Token::Equal) => true,
        (Token::Word(x), Token::Word(y)) => x.eq(y),
        _ => false,
    }
}

/// The text that describes a token in messages: the name of its kind, and
/// what it holds, in brackets, strings in double and characters in single
/// quotes.
pub open spec fn token_text(t: TokenView) -> Seq<char> {
    match t {
        TokenView::IndentedLineFeed => "IndentedLineFeed"@,
        TokenView::LineFeed => "LineFeed"@,
        TokenView::Spaces(x) => "Spaces(\""@ + x + "\")"@,
        TokenView::Escaped(c) => "Escaped('"@.push(c) + "')"@,
        TokenView::Variable(x) => "Variable(\""@ + x + "\")"@,
        TokenView::BracedVariable(x) => "BracedVariable(\""@ + x + "\")"@,
        TokenView::Colon => "Colon"@,
        TokenView::Pipe => "Pipe"@,
        TokenView::TwoPipe => "TwoPipe"@,
        TokenView::Equal => "Equal"@,
        TokenView::Word(x) => "Word(\""@ + x + "\")"@,
    }
}

/// A description of a token, for messages.
pub fn describe_token(t: &Token) -> (r: String)
    ensures
        r@ == token_text(t@),
{
    proof {
        reveal_with_fuel(crate::text::concat_all, 4);
    }
    match t {
        Token::IndentedLineFeed => "IndentedLineFeed".to_owned(),
        Token::LineFeed => "LineFeed".to_owned(),
        Token::Spaces(x) => crate::text::concat(&["Spaces(\"", x.as_str(), "\")"]),
        Token::Escaped(c) => {
            let mut r = "Escaped('".to_owned();
            string_push(&mut r, *c);
            crate::text::string_push_str(&mut r, "')");
            r
        },
        Token::Variable(x) => crate::text::concat(&["Variable(\"", x.as_str(), "\")"]),
        Token::BracedVariable(x) => crate::text::concat(&["BracedVariable(\"", x.as_str(), "\")"]),
        Token::Colon => "Colon".to_owned(),
        Token::Pipe => "Pipe".to_owned(),
        Token::TwoPipe => "TwoPipe".to_owned(),
        Token::Equal => "Equal".to_owned(),
        Token::Word(x) => crate::text::concat(&["Word(\"", x.as_str(), "\")"]),
    }
}

impl Lexer {
    /// Take the next token, which must be `expected`.
    pub fn expect(&mut self, expected: Token) -> (r: Result<(), Error>)
        requires
            old(self).wf(),
        ensures
            final(self).wf(),
            old(self).remaining().len() == 0 ==> r is Err && final(self).remaining().len() == 0,
            old(self).remaining().len() > 0 ==> final(self).remaining() == old(self).remaining().drop_first() && (r is Ok
                <==> old(self).remaining()[0] == Lexed::Tok(expected@)),
    {
        match self.next() {
            None => Err(Error::UnexpectedEof(crate::text::concat(&["expecting token ", describe_token(&expected).as_str()]))),
            Some(Err(e)) => Err(e),
            Some(Ok(next)) => {
                if same_token(&next, &expected) {
                    Ok(())
                } else {
                    Err(
                        Error::UnexpectedToken(
                            crate::text::concat(
                                &[describe_token(&next).as_str(), ", expected ", describe_token(&expected).as_str()],
                            ),
                            self.pos.line,
                            self.pos.column,
                        ),
                    )
                }
            },
        }
    }

    /// Take the next item and report it as out of place, with a description
    /// of what was wanted.
    pub fn unexpected(&mut self, desc: &str) -> (r: Error)
        requires
            old(self).wf(),
        ensures
            final(self).wf(),
            old(self).remaining().len() == 0 ==> final(self).remaining().len() == 0,
            old(self).remaining().len() > 0 ==> final(self).remaining() == old(self).remaining().drop_first(),
    {
        match self.next() {
            None => Error::UnexpectedEof("expecting some token, got end of file".to_owned()),
            Some(Err(e)) => e,
            Some(Ok(next)) => Error::UnexpectedToken(
                crate::text::concat(&[describe_token(&next).as_str(), ", ", desc]),
                self.pos.line,
                self.pos.column,
            ),
        }
    }

    /// Skip the spaces ahead.
    pub fn skip_spaces(&mut self)
        requires
            old(self).wf(),
        ensures
            final(self).wf(),
            final(self).remaining() == after_spaces(old(self).remaining()),
    {
        loop
            invariant_except_break
                after_spaces(self.remaining()) == after_spaces(old(self).remaining()),
            invariant
                self.wf(),
            ensures
                self.remaining() == after_spaces(old(self).remaining()),
            decreases self.remaining().len(),
        {
            let ghost ts = self.remaining();
            match self.peek() {
                Ok(Some(Token::Spaces(_))) => {
                    let _ = self.next();
                    assert(self.remaining() =~= ts.drop_first());
                },
                Ok(None) => {
                    break;
                },
                Ok(Some(t)) => {
                    assert(!(t@ is Spaces));
                    break;
                },
                Err(_) => {
                    assert(self.remaining() == ts.drop_first());
                    break;
                },
            }
        }
    }

    /// Consume consecutive line breaks, and tell whether the next logical
    /// line is indented: true if the last line break taken was followed by
    /// indentation, false if none was taken, the last one was bare, or the
    /// input ended.
    pub fn eat_newlines(&mut self) -> (indented: bool)
        requires
            old(self).wf(),
        ensures
            final(self).wf(),
            (indented, final(self).remaining()) == eat_newlines_spec(old(self).remaining(), false),
    {
        let mut indented = false;
        loop
            invariant_except_break
                eat_newlines_spec(self.remaining(), indented) == eat_newlines_spec(old(self).remaining(), false),
            invariant
                self.wf(),
            ensures
                (indented, self.remaining()) == eat_newlines_spec(old(self).remaining(), false),
            decreases self.remaining().len(),
        {
            let ghost ts = self.remaining();
            match self.peek() {
                Ok(Some(Token::IndentedLineFeed)) => {
                    let _ = self.next();
                    assert(self.remaining() =~= ts.drop_first());
                    indented = true;
                },
                Ok(Some(Token::LineFeed)) => {
                    let _ = self.next();
                    assert(self.remaining() =~= ts.drop_first());
                    indented = false;
                },
                Ok(None) => {
                    return false;
                },
                Err(_) => {
                    assert(self.remaining() == ts.drop_first());
                    return false;
                },
                Ok(Some(t)) => {
                    assert(!(t@ is IndentedLineFeed) && !(t@ is LineFeed));
                    break;
                },
            }
        }
        indented
    }
}

/// A character that may be part of a word of a Ninja file: anything but
/// `=`, `$`, `:`, `|` and Unicode white space.
pub open spec fn ninja_word_char(c: char) -> bool {
    let u = c as u32;
    &&& c != '='
    &&& c != '$'
    &&& c != ':'
    &&& c != '|'
    &&& !((0x09 <= u && u <= 0x0d) || u == 0x20 || u == 0x85 || u == 0xa0 || u == 0x1680 || (0x2000 <= u && u
        <= 0x200a) || u == 0x2028 || u == 0x2029 || u == 0x202f || u == 0x205f || u == 0x3000)
}

/// From `i` on, the characters of `s` are word characters up to `j`, and
/// the one at `j`, if any, is not.
proof fn lemma_word_run(s: Seq<char>, i: int, j: int)
    requires
        0 <= i <= j <= s.len(),
        forall|k: int| i <= k < j ==> ninja_word_char(#[trigger] s[k]),
        j < s.len() ==> !ninja_word_char(s[j]),
    ensures
        run_len(s, i, CharClass::WordChar) == j - i,
        run_len(s, i, CharClass::NotLineFeed) >= j - i,
    decreases j - i,
{
    if i < j {
        lemma_word_run(s, i + 1, j);
        assert(ninja_word_char(s[i]));
    }
}

/// No line feed among the characters from `i` on: the run of characters
/// other than a line feed reaches the end.
proof fn lemma_no_line_feed_run(s: Seq<char>, i: int)
    requires
        0 <= i <= s.len(),
        forall|k: int| i <= k < s.len() ==> #[trigger] s[k] != '\n',
    ensures
        run_len(s, i, CharClass::NotLineFeed) == s.len() - i,
    decreases s.len() - i,
{
    if i < s.len() {
        lemma_no_line_feed_run(s, i + 1);
    }
}

/// Every character other than `=`, `$`, `:`, `|` and white space is a word
/// character: a nonempty text made only of them, such as the path
/// `src/foo.c`, lexes as one word token holding the whole text.
pub proof fn lemma_word_text_is_one_word(w: Seq<char>)
    requires
        w.len() > 0,
        forall|k: int| 0 <= k < w.len() ==> ninja_word_char(#[trigger] w[k]),
    ensures
        tokens_of(w) == seq![Lexed::Tok(TokenView::Word(w))],
{
    lemma_word_run(w, 0, w.len() as int);
    lemma_no_line_feed_run(w, 0);
    assert(ninja_word_char(w[0]));
    assert(w.subrange(0, w.len() as int) =~= w);
    assert(raw_tokens(w, w.len() as int) == Seq::<Lexed>::empty());
    assert(tokens_of(w) =~= seq![Lexed::Tok(TokenView::Word(w))]);
}

/// A word ends exactly where a character that is not a word character
/// comes: a nonempty text of word characters followed by `=`, `:`, `|`, a
/// space or a tab lexes first as one word token holding exactly that text.
pub proof fn lemma_word_ends_at_delimiter(w: Seq<char>, c: char)
    requires
        w.len() > 0,
        forall|k: int| 0 <= k < w.len() ==> ninja_word_char(#[trigger] w[k]),
        c == '=' || c == ':' || c == '|' || c == ' ' || c == '\t',
    ensures
        tokens_of(w.push(c)).len() > 0,
        tokens_of(w.push(c))[0] == Lexed::Tok(TokenView::Word(w)),
{
    let s = w.push(c);
    assert forall|k: int| 0 <= k < w.len() implies ninja_word_char(#[trigger] s[k]) by {
        assert(s[k] == w[k]);
    }
    assert(!ninja_word_char(s[w.len() as int]));
    lemma_word_run(s, 0, w.len() as int);
    assert forall|k: int| 1 <= k < s.len() implies #[trigger] s[k] != '\n' by {
        if k < w.len() {
            assert(s[k] == w[k]);
            assert(ninja_word_char(w[k]));
        }
    }
    lemma_no_line_feed_run(s, 1);
    assert(ninja_word_char(s[0]));
    assert(s.subrange(0, w.len() as int) =~= w);
}

} // verus!
