//! Lexical analysis: turns a text buffer into a forward-only sequence of
//! tokens, one `next` call at a time.
//!
//! The mathematical model of tokenization lives in the spec functions
//! `skip_ws`, `number_token`, `string_token`, `ident_end` and `next_token`;
//! every executable routine is proved to agree with them exactly.

use vstd::prelude::*;
use vstd::string::StrSliceExecFns;

verus! {

/// A failure of the lexical stage.
#[derive(Debug, Clone, PartialEq, Eq, Structural)]
pub enum TokenizerError {
    /// The input ended where a token, or the rest of a string literal,
    /// was still expected.
    UnexpectedEndOfInput,
    /// A backslash escape named a character outside the escape table.
    NotAnEscapableCharacter(char),
    /// A character that may not appear inside a numeric literal.
    InvalidNumberCharacter(char),
    /// A character that cannot begin any token, such as a stray bracket.
    UnexpectedCharacter(char),
}

/// The kind of a literal token.
#[derive(Debug, Clone, Copy, PartialEq, Eq, Structural)]
pub enum ValueType {
    String,
    Number,
}

/// The smallest lexical unit: a parenthesis, an identifier, or a typed
/// literal carrying its text.
#[derive(Debug, Clone, PartialEq)]
pub enum Token {
    Identifier(String),
    LeftParen,
    RightParen,
    Value(String, ValueType),
}

/// The mathematical shape of a [`Token`]: its text as a sequence of
/// characters.
pub enum TokenV {
    Identifier(Seq<char>),
    LeftParen,
    RightParen,
    Value(Seq<char>, ValueType),
}

impl View for Token {
    type V = TokenV;

    open spec fn view(&self) -> TokenV {
        match self {
            Token::Identifier(s) => TokenV::Identifier(s@),
            Token::LeftParen => TokenV::LeftParen,
            Token::RightParen => TokenV::RightParen,
            Token::Value(s, k) => TokenV::Value(s@, *k),
        }
    }
}

/// The whitespace characters that separate tokens.
pub open spec fn is_space(c: char) -> bool {
    c == ' ' || c == '\n' || c == '\t'
}

/// The decimal digits.
pub open spec fn is_digit(c: char) -> bool {
    48 <= (c as u32) && (c as u32) <= 57
}

/// The characters that end an identifier (and are not consumed by it).
pub open spec fn is_ident_boundary(c: char) -> bool {
    c == '[' || c == ']' || c == '{' || c == '}' || c == '(' || c == ')' || is_space(c)
}

/// The characters that end a numeric literal (and are not consumed by it).
pub open spec fn is_number_delim(c: char) -> bool {
    c == ' ' || c == ',' || c == ')' || c == ']' || c == '}' || c == '\n' || c == '\t'
}

/// The escape table: what a backslash-escaped character stands for, or
/// `None` where it cannot be escaped.
pub open spec fn escape_of(c: char) -> Option<char> {
    if c == 'n' {
        Some('\n')
    } else if c == 't' {
        Some('\t')
    } else if c == '\\' {
        Some('\\')
    } else {
        None
    }
}

/// The first position at or after `i` that does not hold whitespace
/// (or the end of the input).
pub open spec fn skip_ws(s: Seq<char>, i: int) -> int
    decreases s.len() - i,
{
    if 0 <= i < s.len() && is_space(s[i]) {
        skip_ws(s, i + 1)
    } else {
        i
    }
}

/// The first position at or after `i` that ends an identifier
/// (or the end of the input).
pub open spec fn ident_end(s: Seq<char>, i: int) -> int
    decreases s.len() - i,
{
    if 0 <= i < s.len() && !is_ident_boundary(s[i]) {
        ident_end(s, i + 1)
    } else {
        i
    }
}

/// Scanning a numeric literal from position `i` with the text read so far
/// in `acc`: digits and dots accumulate, a delimiter or the end of the
/// input stops the scan, and any other character is a lexical failure.
pub open spec fn number_token(s: Seq<char>, i: int, acc: Seq<char>) -> Result<
    (Seq<char>, int),
    TokenizerError,
>
    recommends
        0 <= i <= s.len(),
    decreases s.len() - i,
{
    if i >= s.len() {
        Ok((acc, i))
    } else if s[i] == '.' || is_digit(s[i]) {
        number_token(s, i + 1, acc.push(s[i]))
    } else if is_number_delim(s[i]) {
        Ok((acc, i))
    } else {
        Err(TokenizerError::InvalidNumberCharacter(s[i]))
    }
}

/// Scanning the body of a string literal from position `i` (just past the
/// opening quote) with the text read so far in `acc`: a closing quote stops
/// the scan, a backslash maps the following character through the escape
/// table, anything else is taken verbatim, and exhausting the input before
/// the closing quote is a lexical failure.
pub open spec fn string_token(s: Seq<char>, i: int, acc: Seq<char>) -> Result<
    (Seq<char>, int),
    TokenizerError,
>
    recommends
        0 <= i <= s.len(),
    decreases s.len() - i,
{
    if i >= s.len() {
        Err(TokenizerError::UnexpectedEndOfInput)
    } else if s[i] == '"' {
        Ok((acc, i + 1))
    } else if s[i] == '\\' {
        if i + 1 >= s.len() {
            Err(TokenizerError::UnexpectedEndOfInput)
        } else {
            match escape_of(s[i + 1]) {
                Some(e) => string_token(s, i + 2, acc.push(e)),
                None => Err(TokenizerError::NotAnEscapableCharacter(s[i + 1])),
            }
        }
    } else {
        string_token(s, i + 1, acc.push(s[i]))
    }
}

/// The next token of `s` starting at position `i`, together with the
/// position just past it, or the lexical failure met on the way.
pub open spec fn next_token(s: Seq<char>, i: int) -> Result<(TokenV, int), TokenizerError>
    recommends
        0 <= i <= s.len(),
{
    let j = skip_ws(s, i);
    if j >= s.len() {
        Err(TokenizerError::UnexpectedEndOfInput)
    } else if s[j] == '(' {
        Ok((TokenV::LeftParen, j + 1))
    } else if s[j] == ')' {
        Ok((TokenV::RightParen, j + 1))
    } else if is_digit(s[j]) {
        match number_token(s, j, Seq::empty()) {
            Ok((text, k)) => Ok((TokenV::Value(text, ValueType::Number), k)),
            Err(e) => Err(e),
        }
    } else if s[j] == '"' {
        match string_token(s, j + 1, Seq::empty()) {
            Ok((text, k)) => Ok((TokenV::Value(text, ValueType::String), k)),
            Err(e) => Err(e),
        }
    } else if is_ident_boundary(s[j]) {
        // A bracket here would otherwise yield an empty identifier;
        // it is rejected instead of silently producing one.
        Err(TokenizerError::UnexpectedCharacter(s[j]))
    } else {
        Ok((TokenV::Identifier(s.subrange(j, ident_end(s, j))), ident_end(s, j)))
    }
}

/// Runtime test for [`is_space`].
pub(crate) fn space_char(c: char) -> (b: bool)
    ensures
        b == is_space(c),
{
    c == ' ' || c == '\n' || c == '\t'
}

/// Runtime test for [`is_digit`].
pub(crate) fn digit_char(c: char) -> (b: bool)
    ensures
        b == is_digit(c),
{
    let u = c as u32;
    48 <= u && u <= 57
}

/// Runtime test for [`is_ident_boundary`].
fn ident_boundary_char(c: char) -> (b: bool)
    ensures
        b == is_ident_boundary(c),
{
    c == '[' || c == ']' || c == '{' || c == '}' || c == '(' || c == ')' || space_char(c)
}

/// Runtime test for [`is_number_delim`].
fn number_delim_char(c: char) -> (b: bool)
    ensures
        b == is_number_delim(c),
{
    c == ' ' || c == ',' || c == ')' || c == ']' || c == '}' || c == '\n' || c == '\t'
}

/// Appends one character to a string.
///
/// Relies on std's `String::push`: appends the given `char` to the end of
/// this `String`.
#[verifier::external_body]
pub(crate) fn push_char(s: &mut String, c: char)
    ensures
        final(s)@ == old(s)@.push(c),
{
    s.push(c)
}

/// The lexer: the input as an indexed sequence of characters plus a
/// monotonically increasing cursor. Forward-only; once a token is consumed
/// the cursor cannot rewind.
#[derive(Debug, Clone)]
pub struct Tokenizer {
    to_read: Vec<char>,
    position: usize,
}

impl Tokenizer {
    /// The characters being tokenized.
    pub closed spec fn input(&self) -> Seq<char> {
        self.to_read@
    }

    /// The cursor: how many characters have been consumed.
    pub closed spec fn pos(&self) -> int {
        self.position as int
    }

    /// The cursor never runs past the end of the input.
    pub open spec fn wf(&self) -> bool {
        0 <= self.pos() <= self.input().len()
    }

    pub fn from_string(s: &str) -> (t: Self)
        ensures
            t.wf(),
            t.input() == s@,
            t.pos() == 0,
    {
        let n = s.unicode_len();
        let mut to_read: Vec<char> = Vec::new();
        let mut i: usize = 0;
        while i < n
            invariant
                i <= n,
                n == s@.len(),
                to_read@ == s@.subrange(0, i as int),
            decreases n - i,
        {
            to_read.push(s.get_char(i));
            proof {
                assert(to_read@ =~= s@.subrange(0, i + 1));
            }
            i += 1;
        }
        proof {
            assert(to_read@ =~= s@);
        }
        Tokenizer { to_read, position: 0 }
    }

    fn can_read(&self) -> (b: bool)
        ensures
            b == (self.pos() < self.input().len()),
    {
        self.position < self.to_read.len()
    }

    fn peek_char(&self) -> (c: char)
        requires
            self.wf(),
            self.pos() < self.input().len(),
        ensures
            c == self.input()[self.pos()],
    {
        self.to_read[self.position]
    }

    fn consume_char(&mut self) -> (c: char)
        requires
            old(self).wf(),
            old(self).pos() < old(self).input().len(),
        ensures
            final(self).wf(),
            final(self).input() == old(self).input(),
            final(self).pos() == old(self).pos() + 1,
            c == old(self).input()[old(self).pos()],
    {
        let ch = self.peek_char();
        proof {
            vstd::std_specs::vec::axiom_spec_len(&self.to_read);
        }
        self.position += 1;
        ch
    }

    /// Advances past a token and returns it, or reports the lexical failure
    /// met on the way; agrees exactly with [`next_token`].
    pub fn next(&mut self) -> (r: Result<Token, TokenizerError>)
        requires
            old(self).wf(),
        ensures
            final(self).wf(),
            final(self).input() == old(self).input(),
            match r {
                Ok(t) => next_token(old(self).input(), old(self).pos()) == Ok::<
                    (TokenV, int),
                    TokenizerError,
                >((t@, final(self).pos())),
                Err(e) => next_token(old(self).input(), old(self).pos()) == Err::<
                    (TokenV, int),
                    TokenizerError,
                >(e),
            },
    {
        let ghost s = self.input();
        let ghost start = self.pos();
        while self.can_read() && space_char(self.peek_char())
            invariant
                self.wf(),
                self.input() == s,
                s == old(self).input(),
                start == old(self).pos(),
                start <= self.pos() <= s.len(),
                skip_ws(s, start) == skip_ws(s, self.pos()),
            decreases s.len() - self.pos(),
        {
            self.consume_char();
        }
        proof {
            assert(skip_ws(s, self.pos()) == self.pos());
        }
        if !self.can_read() {
            return Err(TokenizerError::UnexpectedEndOfInput);
        }
        let c = self.peek_char();
        if c == '(' {
            self.consume_char();
            Ok(Token::LeftParen)
        } else if c == ')' {
            self.consume_char();
            Ok(Token::RightParen)
        } else if digit_char(c) {
            self.read_number()
        } else if c == '"' {
            self.read_string()
        } else if ident_boundary_char(c) {
            Err(TokenizerError::UnexpectedCharacter(c))
        } else {
            self.read_identifier()
        }
    }

    /// Scans an identifier up to the next boundary character; agrees
    /// exactly with [`ident_end`].
    fn read_identifier(&mut self) -> (r: Result<Token, TokenizerError>)
        requires
            old(self).wf(),
        ensures
            final(self).wf(),
            final(self).input() == old(self).input(),
            final(self).pos() == ident_end(old(self).input(), old(self).pos()),
            r matches Ok(t) && t@ == TokenV::Identifier(
                old(self).input().subrange(
                    old(self).pos(),
                    ident_end(old(self).input(), old(self).pos()),
                ),
            ),
    {
        let ghost s = self.input();
        let ghost start = self.pos();
        let mut current_token = String::new();
        while self.can_read() && !ident_boundary_char(self.peek_char())
            invariant
                self.wf(),
                self.input() == s,
                s == old(self).input(),
                start == old(self).pos(),
                0 <= start <= self.pos() <= s.len(),
                ident_end(s, start) == ident_end(s, self.pos()),
                current_token@ == s.subrange(start, self.pos()),
            decreases s.len() - self.pos(),
        {
            let ghost p0 = self.pos();
            let c = self.consume_char();
            push_char(&mut current_token, c);
            proof {
                assert(ident_end(s, p0) == ident_end(s, p0 + 1));
                assert(current_token@ =~= s.subrange(start, self.pos()));
            }
        }
        proof {
            assert(ident_end(s, self.pos()) == self.pos());
        }
        Ok(Token::Identifier(current_token))
    }

    /// Scans the body of a string literal, opening quote under the cursor;
    /// agrees exactly with [`string_token`].
    fn read_string(&mut self) -> (r: Result<Token, TokenizerError>)
        requires
            old(self).wf(),
            old(self).pos() < old(self).input().len(),
            old(self).input()[old(self).pos()] == '"',
        ensures
            final(self).wf(),
            final(self).input() == old(self).input(),
            match r {
                Ok(t) => string_token(
                    old(self).input(),
                    old(self).pos() + 1,
                    Seq::empty(),
                ) matches Ok(p) && t@ == TokenV::Value(p.0, ValueType::String) && final(self).pos()
                    == p.1,
                Err(e) => string_token(old(self).input(), old(self).pos() + 1, Seq::empty())
                    == Err::<(Seq<char>, int), TokenizerError>(e),
            },
    {
        let ghost s = self.input();
        let mut current_token = String::new();
        self.consume_char();  // consume the opening quote
        let ghost start = self.pos();
        while self.can_read()
            invariant
                self.wf(),
                self.input() == s,
                s == old(self).input(),
                start == old(self).pos() + 1,
                0 <= start <= self.pos() <= s.len(),
                string_token(s, start, Seq::empty()) == string_token(s, self.pos(), current_token@),
            decreases s.len() - self.pos(),
        {
            let ghost p0 = self.pos();
            let ghost a0 = current_token@;
            let c = self.peek_char();
            if c == '"' {
                self.consume_char();
                proof {
                    assert(string_token(s, p0, a0) == Ok::<(Seq<char>, int), TokenizerError>(
                        (a0, p0 + 1),
                    ));
                }
                return Ok(Token::Value(current_token, ValueType::String));
            } else if c == '\\' {
                self.consume_char();
                if !self.can_read() {
                    proof {
                        assert(string_token(s, p0, a0) == Err::<(Seq<char>, int), TokenizerError>(
                            TokenizerError::UnexpectedEndOfInput,
                        ));
                    }
                    return Err(TokenizerError::UnexpectedEndOfInput);
                }
                let to_escape = self.consume_char();
                match self.get_escaped_char(to_escape) {
                    Ok(escaped) => {
                        push_char(&mut current_token, escaped);
                        proof {
                            assert(string_token(s, p0, a0) == string_token(
                                s,
                                self.pos(),
                                current_token@,
                            ));
                        }
                    },
                    Err(e) => {
                        proof {
                            assert(string_token(s, p0, a0) == Err::<
                                (Seq<char>, int),
                                TokenizerError,
                            >(e));
                        }
                        return Err(e);
                    },
                }
            } else {
                let c2 = self.consume_char();
                push_char(&mut current_token, c2);
                proof {
                    assert(string_token(s, p0, a0) == string_token(s, self.pos(), current_token@));
                }
            }
        }
        Err(TokenizerError::UnexpectedEndOfInput)
    }

    /// What a backslash-escaped character stands for; agrees exactly with
    /// the escape table [`escape_of`].
    fn get_escaped_char(&self, c: char) -> (r: Result<char, TokenizerError>)
        ensures
            match escape_of(c) {
                Some(e) => r == Ok::<char, TokenizerError>(e),
                None => r == Err::<char, TokenizerError>(TokenizerError::NotAnEscapableCharacter(c)),
            },
    {
        if c == 'n' {
            Ok('\n')
        } else if c == 't' {
            Ok('\t')
        } else if c == '\\' {
            Ok('\\')
        } else {
            Err(TokenizerError::NotAnEscapableCharacter(c))
        }
    }

    /// Scans a numeric literal's text, without judging its shape; agrees
    /// exactly with [`number_token`].
    fn read_number(&mut self) -> (r: Result<Token, TokenizerError>)
        requires
            old(self).wf(),
        ensures
            final(self).wf(),
            final(self).input() == old(self).input(),
            match r {
                Ok(t) => number_token(old(self).input(), old(self).pos(), Seq::empty()) matches Ok(
                    p,
                ) && t@ == TokenV::Value(p.0, ValueType::Number) && final(self).pos() == p.1,
                Err(e) => number_token(old(self).input(), old(self).pos(), Seq::empty()) == Err::<
                    (Seq<char>, int),
                    TokenizerError,
                >(e),
            },
    {
        let ghost s = self.input();
        let ghost start = self.pos();
        let mut current_token = String::new();
        while self.can_read()
            invariant
                self.wf(),
                self.input() == s,
                s == old(self).input(),
                start == old(self).pos(),
                0 <= start <= self.pos() <= s.len(),
                number_token(s, start, Seq::empty()) == number_token(s, self.pos(), current_token@),
            decreases s.len() - self.pos(),
        {
            let ghost p0 = self.pos();
            let ghost a0 = current_token@;
            let c = self.peek_char();
            if c == '.' || digit_char(c) {
                let c2 = self.consume_char();
                push_char(&mut current_token, c2);
                proof {
                    assert(number_token(s, p0, a0) == number_token(s, self.pos(), current_token@));
                }
            } else if number_delim_char(c) {
                proof {
                    assert(number_token(s, p0, a0) == Ok::<(Seq<char>, int), TokenizerError>(
                        (a0, p0),
                    ));
                }
                return Ok(Token::Value(current_token, ValueType::Number));
            } else {
                proof {
                    assert(number_token(s, p0, a0) == Err::<(Seq<char>, int), TokenizerError>(
                        TokenizerError::InvalidNumberCharacter(s[p0]),
                    ));
                }
                return Err(TokenizerError::InvalidNumberCharacter(self.consume_char()));
            }
        }
        Ok(Token::Value(current_token, ValueType::Number))
    }
}

/// Skipping whitespace stays within the input and stops at a
/// non-whitespace character, every skipped character being whitespace.
pub proof fn lemma_skip_ws_bounds(s: Seq<char>, i: int)
    requires
        0 <= i <= s.len(),
    ensures
        i <= skip_ws(s, i) <= s.len(),
        skip_ws(s, i) < s.len() ==> !is_space(s[skip_ws(s, i)]),
        forall|k: int| i <= k < skip_ws(s, i) ==> is_space(s[k]),
    decreases s.len() - i,
{
    if i < s.len() && is_space(s[i]) {
        lemma_skip_ws_bounds(s, i + 1);
    }
}

/// An identifier scan stays within the input, stops at a boundary (or the
/// end), and every character it took is a non-boundary character.
pub proof fn lemma_ident_end_bounds(s: Seq<char>, i: int)
    requires
        0 <= i <= s.len(),
    ensures
        i <= ident_end(s, i) <= s.len(),
        ident_end(s, i) == s.len() || is_ident_boundary(s[ident_end(s, i)]),
        forall|k: int| i <= k < ident_end(s, i) ==> !is_ident_boundary(s[k]),
    decreases s.len() - i,
{
    if i < s.len() && !is_ident_boundary(s[i]) {
        lemma_ident_end_bounds(s, i + 1);
    }
}

/// A successful number scan ends within the input, no earlier than where
/// it started.
pub proof fn lemma_number_token_bounds(s: Seq<char>, i: int, acc: Seq<char>)
    requires
        0 <= i <= s.len(),
    ensures
        number_token(s, i, acc) matches Ok(p) ==> i <= p.1 <= s.len(),
    decreases s.len() - i,
{
    if i < s.len() && (s[i] == '.' || is_digit(s[i])) {
        lemma_number_token_bounds(s, i + 1, acc.push(s[i]));
    }
}

/// A successful string scan ends within the input, past where it started.
pub proof fn lemma_string_token_bounds(s: Seq<char>, i: int, acc: Seq<char>)
    requires
        0 <= i <= s.len(),
    ensures
        string_token(s, i, acc) matches Ok(p) ==> i < p.1 <= s.len(),
    decreases s.len() - i,
{
    if i < s.len() && s[i] != '"' {
        if s[i] == '\\' {
            if i + 1 < s.len() && escape_of(s[i + 1]) is Some {
                lemma_string_token_bounds(s, i + 2, acc.push(escape_of(s[i + 1])->0));
            }
        } else {
            lemma_string_token_bounds(s, i + 1, acc.push(s[i]));
        }
    }
}

/// A successful `next_token` always advances the cursor, and never past
/// the end of the input.
pub proof fn lemma_next_token_advances(s: Seq<char>, i: int)
    requires
        0 <= i <= s.len(),
    ensures
        next_token(s, i) matches Ok(p) ==> i < p.1 <= s.len(),
{
    lemma_skip_ws_bounds(s, i);
    let j = skip_ws(s, i);
    if j < s.len() {
        if is_digit(s[j]) {
            lemma_number_token_bounds(s, j + 1, Seq::empty().push(s[j]));
        } else if s[j] == '"' {
            lemma_string_token_bounds(s, j + 1, Seq::empty());
        } else if !(s[j] == '(' || s[j] == ')' || is_ident_boundary(s[j])) {
            lemma_ident_end_bounds(s, j + 1);
        }
    }
}

/// A number scan over text that is digits and dots throughout takes all of
/// it and stops at the end of the input.
pub proof fn lemma_number_token_all(s: Seq<char>, i: int, acc: Seq<char>)
    requires
        0 <= i <= s.len(),
        forall|k: int| i <= k < s.len() ==> (is_digit(s[k]) || s[k] == '.'),
    ensures
        number_token(s, i, acc) == Ok::<(Seq<char>, int), TokenizerError>(
            (acc + s.subrange(i, s.len() as int), s.len() as int),
        ),
    decreases s.len() - i,
{
    if i < s.len() {
        lemma_number_token_all(s, i + 1, acc.push(s[i]));
        assert(acc.push(s[i]) + s.subrange(i + 1, s.len() as int) =~= acc + s.subrange(
            i,
            s.len() as int,
        ));
    } else {
        assert(acc + s.subrange(i, s.len() as int) =~= acc);
    }
}

/// Law: a string literal whose closing quote never comes is a lexical
/// failure, whatever text was read so far; scanning never loops and never
/// substitutes a value.
pub proof fn lemma_string_token_unterminated(s: Seq<char>, i: int, acc: Seq<char>)
    requires
        0 <= i <= s.len(),
        forall|k: int| i <= k < s.len() ==> s[k] != '"',
    ensures
        string_token(s, i, acc) is Err,
    decreases s.len() - i,
{
    if i < s.len() {
        if s[i] == '\\' {
            if i + 1 < s.len() {
                match escape_of(s[i + 1]) {
                    Some(e) => {
                        lemma_string_token_unterminated(s, i + 2, acc.push(e));
                    },
                    None => {},
                }
            }
        } else {
            lemma_string_token_unterminated(s, i + 1, acc.push(s[i]));
        }
    }
}

/// Law: where the token under the cursor is a string literal with no
/// closing quote anywhere ahead, `next_token` fails explicitly; it never
/// returns a placeholder token.
pub proof fn lemma_unterminated_string_fails(s: Seq<char>, i: int)
    requires
        0 <= i <= s.len(),
        skip_ws(s, i) < s.len(),
        s[skip_ws(s, i)] == '"',
        forall|k: int| skip_ws(s, i) < k < s.len() ==> s[k] != '"',
    ensures
        next_token(s, i) is Err,
{
    lemma_skip_ws_bounds(s, i);
    lemma_string_token_unterminated(s, skip_ws(s, i) + 1, Seq::empty());
}

} // verus!
