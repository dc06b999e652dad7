use vstd::prelude::*;

use crate::error::Error;
use vstd::std_specs::iter::IteratorSpec;

verus! {

broadcast use {vstd::string::axiom_spec_iter, vstd::string::next_postcondition};

/// The kinds of token.
#[derive(Clone, Copy, PartialEq, Eq, Debug, Structural)]
pub enum TokenType {
    Eof,
    VarPrefix,
    LeftBracket,
    RightBracket,
    Equal,
    String,
    Name,
    Print,
    Ignored,
}

/// A token: its kind, the line it starts on (counted from 0), and the text of
/// a string literal, a name or a keyword.
#[derive(Clone, Debug)]
pub struct Token(pub TokenType, pub usize, pub Option<String>);

/// What a token stands for in specifications.
pub struct Lexeme {
    pub kind: TokenType,
    pub line: usize,
    pub text: Option<Seq<char>>,
}

impl View for Token {
    type V = Lexeme;

    open spec fn view(&self) -> Lexeme {
        Lexeme {
            kind: self.0,
            line: self.1,
            text: match self.2 {
                Some(s) => Some(s@),
                None => None,
            },
        }
    }
}

impl Token {
    /// A copy of this token.
    pub fn duplicate(&self) -> (r: Token)
        ensures
            r@ == self@,
    {
        let text = match &self.2 {
            Some(s) => Some(s.clone()),
            None => None,
        };
        Token(self.0, self.1, text)
    }
}

/// The view of a lexer operation's result.
pub open spec fn token_result(r: Result<Token, Error>) -> Result<Lexeme, Error> {
    match r {
        Ok(t) => Ok(t@),
        Err(e) => Err(e),
    }
}

pub open spec fn is_name_start(c: char) -> bool {
    c == '_' || ('a' <= c && c <= 'z') || ('A' <= c && c <= 'Z')
}

pub open spec fn is_name_char(c: char) -> bool {
    is_name_start(c) || ('0' <= c && c <= '9')
}

/// Characters that make an ignorable token each. A newline makes none: it
/// only ends a line.
pub open spec fn is_blank(c: char) -> bool {
    c == ' ' || c == '\r' || c == '\t'
}

/// The first position at or after `p` that does not hold a newline.
pub open spec fn skip_newlines(text: Seq<char>, p: int) -> int
    decreases text.len() - p,
{
    if 0 <= p < text.len() && text[p] == '\n' {
        skip_newlines(text, p + 1)
    } else {
        p
    }
}

/// The end of the run of name characters that starts at `p`.
pub open spec fn name_end(text: Seq<char>, p: int) -> int
    decreases text.len() - p,
{
    if 0 <= p < text.len() && is_name_char(text[p]) {
        name_end(text, p + 1)
    } else {
        p
    }
}

/// The first position at or after `p` that holds a quote or a newline, or the
/// end of the text.
pub open spec fn literal_end(text: Seq<char>, p: int) -> int
    decreases text.len() - p,
{
    if 0 <= p < text.len() && text[p] != '"' && text[p] != '\n' {
        literal_end(text, p + 1)
    } else {
        p
    }
}

fn name_start(c: char) -> (r: bool)
    ensures
        r == is_name_start(c),
{
    c == '_' || ('a' <= c && c <= 'z') || ('A' <= c && c <= 'Z')
}

fn name_char(c: char) -> (r: bool)
    ensures
        r == is_name_char(c),
{
    name_start(c) || ('0' <= c && c <= '9')
}

/// The number of newlines before position `p`: the line of `p`, from 0.
pub open spec fn line_of(text: Seq<char>, p: int) -> nat
    decreases p,
{
    if p <= 0 {
        0
    } else {
        line_of(text, p - 1) + if text[p - 1] == '\n' {
            1nat
        } else {
            0nat
        }
    }
}

/// The position where the line of `p` begins.
pub open spec fn line_begin(text: Seq<char>, p: int) -> int
    decreases p,
{
    if p <= 0 {
        0
    } else if text[p - 1] == '\n' {
        p
    } else {
        line_begin(text, p - 1)
    }
}

/// The column of `p`, from 1.
pub open spec fn column(text: Seq<char>, p: int) -> usize {
    (p - line_begin(text, p) + 1) as usize
}

/// The keyword table: `print` is the one keyword.
pub open spec fn keyword(word: Seq<char>) -> Option<TokenType> {
    if word == seq!['p', 'r', 'i', 'n', 't'] {
        Some(TokenType::Print)
    } else {
        None
    }
}

pub open spec fn plain(kind: TokenType, line: usize) -> Lexeme {
    Lexeme { kind, line, text: None }
}

/// One step of the lexer from position `pos`: the token found there and the
/// position after it, or the error. Newlines before the token are skipped;
/// at the end of the text the token is `Eof`, and stays so.
pub open spec fn scan(text: Seq<char>, pos: int) -> Result<(Lexeme, int), Error> {
    let p = skip_newlines(text, pos);
    let line = line_of(text, p) as usize;
    if p >= text.len() {
        Ok((plain(TokenType::Eof, line), p))
    } else {
        let c = text[p];
        if c == '$' {
            Ok((plain(TokenType::VarPrefix, line), p + 1))
        } else if c == '(' {
            Ok((plain(TokenType::LeftBracket, line), p + 1))
        } else if c == ')' {
            Ok((plain(TokenType::RightBracket, line), p + 1))
        } else if c == '=' {
            Ok((plain(TokenType::Equal, line), p + 1))
        } else if c == '"' {
            let q = literal_end(text, p + 1);
            if q < text.len() && text[q] == '"' {
                Ok(
                    (
                        Lexeme {
                            kind: TokenType::String,
                            line,
                            text: Some(text.subrange(p + 1, q)),
                        },
                        q + 1,
                    ),
                )
            } else {
                Err(Error::UnterminatedString { line, col: column(text, p) })
            }
        } else if is_name_start(c) {
            let q = name_end(text, p + 1);
            let word = text.subrange(p, q);
            let kind = match keyword(word) {
                Some(k) => k,
                None => TokenType::Name,
            };
            Ok((Lexeme { kind, line, text: Some(word) }, q))
        } else if is_blank(c) {
            Ok((plain(TokenType::Ignored, line), p + 1))
        } else {
            Err(Error::UnexpectedChar { ch: c, line, col: column(text, p) })
        }
    }
}

/// The token at position `p`.
pub open spec fn token_at(text: Seq<char>, p: int) -> Result<Lexeme, Error> {
    match scan(text, p) {
        Ok((t, _)) => Ok(t),
        Err(e) => Err(e),
    }
}

/// The position after the token at `p`.
pub open spec fn token_end(text: Seq<char>, p: int) -> int {
    match scan(text, p) {
        Ok((_, q)) => q,
        Err(_) => p,
    }
}

/// The token at `p` if it is of kind `kind`, else the error.
pub open spec fn expect_at(text: Seq<char>, p: int, kind: TokenType) -> Result<Lexeme, Error> {
    match token_at(text, p) {
        Ok(t) => if t.kind == kind {
            Ok(t)
        } else {
            Err(Error::UnexpectedToken { expected: kind, found: t.kind, line: t.line })
        },
        Err(e) => Err(e),
    }
}

proof fn lemma_skip_newlines(text: Seq<char>, p: int)
    requires
        0 <= p <= text.len(),
    ensures
        p <= skip_newlines(text, p) <= text.len(),
        forall|k: int| p <= k < skip_newlines(text, p) ==> text[k] == '\n',
    decreases text.len() - p,
{
    if p < text.len() && text[p] == '\n' {
        lemma_skip_newlines(text, p + 1);
    }
}

proof fn lemma_name_end(text: Seq<char>, p: int)
    requires
        p <= text.len(),
    ensures
        p <= name_end(text, p) <= text.len(),
        forall|k: int| p <= k < name_end(text, p) ==> is_name_char(#[trigger] text[k]),
    decreases text.len() - p,
{
    if p < text.len() && is_name_char(text[p]) {
        lemma_name_end(text, p + 1);
    }
}

proof fn lemma_literal_end(text: Seq<char>, p: int)
    requires
        p <= text.len(),
    ensures
        p <= literal_end(text, p) <= text.len(),
        forall|k: int|
            p <= k < literal_end(text, p) ==> #[trigger] text[k] != '"' && text[k] != '\n',
    decreases text.len() - p,
{
    if p < text.len() && text[p] != '"' && text[p] != '\n' {
        lemma_literal_end(text, p + 1);
    }
}

/// Lines never decrease along the text, and the line of `b` is at most `b`.
pub proof fn lemma_line_of_monotone(text: Seq<char>, a: int, b: int)
    requires
        0 <= a <= b,
    ensures
        line_of(text, a) <= line_of(text, b) <= b,
    decreases b,
{
    if a < b {
        lemma_line_of_monotone(text, a, b - 1);
    } else if b > 0 {
        lemma_line_of_monotone(text, b - 1, b - 1);
    }
}

/// A stretch without newlines stays on one line.
proof fn lemma_same_line(text: Seq<char>, a: int, b: int)
    requires
        0 <= a <= b <= text.len(),
        forall|k: int| a <= k < b ==> #[trigger] text[k] != '\n',
    ensures
        line_of(text, b) == line_of(text, a),
        line_begin(text, b) == line_begin(text, a),
    decreases b - a,
{
    if a < b {
        lemma_same_line(text, a, b - 1);
    }
}

/// A lexer step that succeeds never moves back nor past the end, and moves
/// forward unless it reports the end.
pub proof fn lemma_scan_advances(text: Seq<char>, p: int)
    requires
        p <= text.len(),
    ensures
        token_at(text, p) is Ok ==> p <= token_end(text, p) <= text.len(),
        token_at(text, p) is Ok && token_at(text, p)->Ok_0.kind != TokenType::Eof ==> p
            <= skip_newlines(text, p) < token_end(text, p),
        token_at(text, p) is Ok ==> token_at(text, p)->Ok_0.line == line_of(
            text,
            skip_newlines(text, p),
        ) as usize,
{
    if p >= 0 {
        lemma_skip_newlines(text, p);
    }
    let s = skip_newlines(text, p);
    if s < text.len() {
        lemma_literal_end(text, s + 1);
        lemma_name_end(text, s + 1);
    }
}

/// Names, keywords and string literals carry their text.
pub proof fn lemma_word_has_text(text: Seq<char>, p: int)
    ensures
        token_at(text, p) is Ok && (token_at(text, p)->Ok_0.kind == TokenType::Name
            || token_at(text, p)->Ok_0.kind == TokenType::String) ==> token_at(text, p)->Ok_0.text
            is Some,
{
}

proof fn lemma_literal_end_at(text: Seq<char>, a: int, q: int)
    requires
        0 <= a <= q < text.len(),
        text[q] == '"',
        forall|k: int| a <= k < q ==> #[trigger] text[k] != '"' && text[k] != '\n',
    ensures
        literal_end(text, a) == q,
    decreases q - a,
{
    if a < q {
        lemma_literal_end_at(text, a + 1, q);
    }
}

/// A string literal's text is every character between its quotes, exactly
/// as written.
pub proof fn lemma_string_literal_verbatim(text: Seq<char>, p: int, q: int)
    requires
        0 <= p < q < text.len(),
        text[p] == '"',
        text[q] == '"',
        forall|k: int| p < k < q ==> #[trigger] text[k] != '"' && text[k] != '\n',
    ensures
        token_at(text, p) == Ok::<Lexeme, Error>(
            Lexeme {
                kind: TokenType::String,
                line: line_of(text, p) as usize,
                text: Some(text.subrange(p + 1, q)),
            },
        ),
        token_end(text, p) == q + 1,
{
    lemma_literal_end_at(text, p + 1, q);
}

/// A quote with no other quote after it in the text is an error, never a
/// literal that runs to the end.
pub proof fn lemma_unterminated_literal(text: Seq<char>, p: int)
    requires
        0 <= p < text.len(),
        text[p] == '"',
        forall|k: int| p < k < text.len() ==> #[trigger] text[k] != '"',
    ensures
        token_at(text, p) == Err::<Lexeme, Error>(
            Error::UnterminatedString { line: line_of(text, p) as usize, col: column(text, p) },
        ),
{
    lemma_literal_end(text, p + 1);
}

/// The source, split into characters, with a read position and a buffer of
/// one token of lookahead.
pub struct Lexer {
    source: String,
    chars: Vec<char>,
    pos: usize,
    line: usize,
    line_start: usize,
    next_token: Option<Token>,
    token_start: usize,
}

impl Lexer {
    /// The source text.
    pub closed spec fn text(&self) -> Seq<char> {
        self.chars@
    }

    /// Where the next token is read from: the start of the buffered token if
    /// there is one.
    pub closed spec fn cursor(&self) -> int {
        if self.next_token is Some {
            self.token_start as int
        } else {
            self.pos as int
        }
    }

    pub closed spec fn wf(&self) -> bool {
        &&& self.source@ == self.chars@
        &&& self.pos <= self.chars.len()
        &&& self.line <= self.pos
        &&& self.line_start <= self.pos
        &&& self.line as nat == line_of(self.chars@, self.pos as int)
        &&& self.line_start as int == line_begin(self.chars@, self.pos as int)
        &&& self.next_token is Some ==> {
            &&& self.token_start <= self.pos
            &&& scan(self.chars@, self.token_start as int) == Ok::<(Lexeme, int), Error>(
                (self.next_token->Some_0@, self.pos as int),
            )
        }
    }

    pub proof fn lemma_cursor_bound(&self)
        requires
            self.wf(),
        ensures
            0 <= self.cursor() <= self.text().len(),
    {
    }

    /// A lexer at the start of `source`.
    pub fn new(source: String) -> (r: Lexer)
        ensures
            r.wf(),
            r.text() == source@,
            r.cursor() == 0,
    {
        let mut chars: Vec<char> = Vec::new();
        let n = source.as_str().unicode_len();
        let mut it = source.as_str().chars();
        let mut i: usize = 0;
        while i < n
            invariant
                i <= n,
                n == source@.len(),
                chars@.len() == i,
                chars@ + it.remaining() == source@,
            decreases n - i,
        {
            let c = it.next().unwrap();
            chars.push(c);
            i = i + 1;
        }
        assert(chars@ =~= source@);
        Lexer { source, chars, pos: 0, line: 0, line_start: 0, next_token: None, token_start: 0 }
    }

    /// The end of the run of name characters that starts at `start`.
    fn scan_name(&self, start: usize) -> (r: usize)
        requires
            self.wf(),
            start <= self.text().len(),
        ensures
            r == name_end(self.text(), start as int),
    {
        let mut i: usize = start;
        while i < self.chars.len() && name_char(self.chars[i])
            invariant
                self.wf(),
                start <= i <= self.chars.len(),
                name_end(self.text(), i as int) == name_end(self.text(), start as int),
            decreases self.chars.len() - i,
        {
            i = i + 1;
        }
        i
    }

    /// The position of the quote that closes a literal whose text starts at
    /// `start`, or `None` where the line or the text ends first.
    fn scan_string(&self, start: usize) -> (r: Option<usize>)
        requires
            self.wf(),
            start <= self.text().len(),
        ensures
            ({
                let q = literal_end(self.text(), start as int);
                match r {
                    Some(i) => i == q && q < self.text().len() && self.text()[q] == '"',
                    None => !(q < self.text().len() && self.text()[q] == '"'),
                }
            }),
    {
        let mut i: usize = start;
        while i < self.chars.len() && self.chars[i] != '"' && self.chars[i] != '\n'
            invariant
                self.wf(),
                start <= i <= self.chars.len(),
                literal_end(self.text(), i as int) == literal_end(self.text(), start as int),
            decreases self.chars.len() - i,
        {
            i = i + 1;
        }
        if i < self.chars.len() && self.chars[i] == '"' {
            Some(i)
        } else {
            None
        }
    }

    /// The kind of the word `text[start..end]`: a keyword's, if it is one.
    fn keyword_kind(&self, start: usize, end: usize) -> (r: Option<TokenType>)
        requires
            self.wf(),
            start <= end <= self.text().len(),
        ensures
            r == keyword(self.text().subrange(start as int, end as int)),
    {
        let ghost word = self.text().subrange(start as int, end as int);
        let ghost print_word = seq!['p', 'r', 'i', 'n', 't'];
        if end - start == 5 && self.chars[start] == 'p' && self.chars[start + 1] == 'r'
            && self.chars[start + 2] == 'i' && self.chars[start + 3] == 'n' && self.chars[start
            + 4] == 't' {
            assert(word =~= print_word);
            Some(TokenType::Print)
        } else {
            assert(word != print_word) by {
                assert(print_word.len() == 5);
                assert(print_word[0] == 'p' && print_word[1] == 'r' && print_word[2] == 'i'
                    && print_word[3] == 'n' && print_word[4] == 't');
                if end - start == 5 {
                    assert(word[0] == self.text()[start as int]);
                    assert(word[1] == self.text()[start + 1]);
                    assert(word[2] == self.text()[start + 2]);
                    assert(word[3] == self.text()[start + 3]);
                    assert(word[4] == self.text()[start + 4]);
                }
            }
            None
        }
    }

    /// The text between two positions, as a `String`.
    fn slice(&self, start: usize, end: usize) -> (r: String)
        requires
            self.wf(),
            start <= end <= self.text().len(),
        ensures
            r@ == self.text().subrange(start as int, end as int),
    {
        String::from_str(self.source.as_str().substring_char(start, end))
    }

    /// Moves past `n` characters of the current line.
    fn advance(&mut self, n: usize)
        requires
            old(self).wf(),
            old(self).next_token is None,
            old(self).pos + n <= old(self).text().len(),
            forall|k: int|
                old(self).pos <= k < old(self).pos + n ==> #[trigger] old(self).text()[k] != '\n',
        ensures
            final(self).wf(),
            final(self).next_token is None,
            final(self).text() == old(self).text(),
            final(self).pos == old(self).pos + n,
    {
        proof {
            lemma_same_line(self.text(), self.pos as int, self.pos + n);
        }
        self.pos = self.pos + n;
    }

    /// Scans one token from the read position.
    fn scan_token(&mut self) -> (r: Result<Token, Error>)
        requires
            old(self).wf(),
            old(self).next_token is None,
        ensures
            final(self).wf(),
            final(self).next_token is None,
            final(self).text() == old(self).text(),
            token_result(r) == token_at(old(self).text(), old(self).pos as int),
            r is Ok ==> final(self).pos == token_end(old(self).text(), old(self).pos as int),
    {
        let ghost text = self.text();
        let ghost start = self.pos as int;
        proof {
            lemma_skip_newlines(text, start);
        }
        while self.pos < self.chars.len() && self.chars[self.pos] == '\n'
            invariant
                self.wf(),
                self.next_token is None,
                self.text() == text,
                start <= self.pos,
                skip_newlines(text, self.pos as int) == skip_newlines(text, start),
            decreases self.chars.len() - self.pos,
        {
            self.pos = self.pos + 1;
            self.line = self.line + 1;
            self.line_start = self.pos;
        }
        let p = self.pos;
        let line = self.line;
        if p >= self.chars.len() {
            return Ok(Token(TokenType::Eof, line, None));
        }
        let c = self.chars[p];
        if c == '$' || c == '(' || c == ')' || c == '=' || c == ' ' || c == '\r' || c == '\t' {
            let kind = if c == '$' {
                TokenType::VarPrefix
            } else if c == '(' {
                TokenType::LeftBracket
            } else if c == ')' {
                TokenType::RightBracket
            } else if c == '=' {
                TokenType::Equal
            } else {
                TokenType::Ignored
            };
            self.advance(1);
            Ok(Token(kind, line, None))
        } else if c == '"' {
            match self.scan_string(p + 1) {
                Some(q) => {
                    proof {
                        lemma_literal_end(text, p + 1);
                    }
                    let s = self.slice(p + 1, q);
                    self.advance(q + 1 - p);
                    Ok(Token(TokenType::String, line, Some(s)))
                },
                None => Err(Error::UnterminatedString { line, col: p - self.line_start + 1 }),
            }
        } else if name_start(c) {
            let q = self.scan_name(p + 1);
            proof {
                lemma_name_end(text, p + 1);
            }
            let kind = match self.keyword_kind(p, q) {
                Some(k) => k,
                None => TokenType::Name,
            };
            let s = self.slice(p, q);
            self.advance(q - p);
            Ok(Token(kind, line, Some(s)))
        } else {
            Err(Error::UnexpectedChar { ch: c, line, col: p - self.line_start + 1 })
        }
    }

    /// Takes the next token: the buffered one if there is one, else a new one
    /// scanned from the source.
    pub fn get_next_token(&mut self) -> (r: Result<Token, Error>)
        requires
            old(self).wf(),
        ensures
            final(self).wf(),
            final(self).text() == old(self).text(),
            token_result(r) == token_at(old(self).text(), old(self).cursor()),
            r is Ok ==> final(self).cursor() == token_end(old(self).text(), old(self).cursor()),
    {
        match self.next_token.take() {
            Some(t) => Ok(t),
            None => self.scan_token(),
        }
    }

    /// Takes the next token, which must be of kind `token_type`.
    pub fn next_token_is(&mut self, token_type: TokenType) -> (r: Result<Token, Error>)
        requires
            old(self).wf(),
        ensures
            final(self).wf(),
            final(self).text() == old(self).text(),
            token_result(r) == expect_at(old(self).text(), old(self).cursor(), token_type),
            r is Ok ==> final(self).cursor() == token_end(old(self).text(), old(self).cursor()),
    {
        let t = self.get_next_token()?;
        if t.0 != token_type {
            return Err(Error::UnexpectedToken { expected: token_type, found: t.0, line: t.1 });
        }
        Ok(t)
    }

    /// The next token, left in the buffer for the next call to take it.
    pub fn lookahead(&mut self) -> (r: Result<Token, Error>)
        requires
            old(self).wf(),
        ensures
            final(self).wf(),
            final(self).text() == old(self).text(),
            token_result(r) == token_at(old(self).text(), old(self).cursor()),
            r is Ok ==> final(self).cursor() == old(self).cursor(),
    {
        if let Some(t) = &self.next_token {
            return Ok(t.duplicate());
        }
        let start = self.pos;
        let t = self.scan_token()?;
        proof {
            lemma_scan_advances(self.text(), start as int);
        }
        self.next_token = Some(t.duplicate());
        self.token_start = start;
        Ok(t)
    }
}

} // verus!
