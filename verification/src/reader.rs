//! The expression model and the reader.
//!
//! [`Expression`] is both the tree produced by parsing and the runtime value
//! type of the language. Its mathematical shape is [`ExprV`]; the reader's
//! model is the spec function `read_expr`, and `Reader::read` is proved to
//! agree with it exactly.

use vstd::prelude::*;
use crate::eval::{Scope, ScopeV};
use crate::tokenizer::{Token, TokenV, Tokenizer, TokenizerError, ValueType};
use crate::tokenizer::{is_digit, next_token, push_char, skip_ws};

verus! {

broadcast use vstd::seq::axiom_seq_index_decreases, vstd::seq::axiom_seq_subrange_decreases, vstd::std_specs::vec::axiom_vec_index_decreases, vstd::std_specs::vec::axiom_vec_decreases_to_view;

/// The built-in callables a hosting program may bind into a scope.
///
/// Natives are drawn from this fixed catalogue so that their application
/// stays within verified code.
#[derive(Debug, Clone, Copy, PartialEq, Eq, Structural)]
pub enum NativeFunction {
    /// Adds two integers, wrapping on overflow; anything else is a type
    /// mismatch.
    IntegerAdd,
    /// Returns its first argument unchanged.
    Identity,
}

/// A callable value: either a host-provided native or a user-defined
/// function bundled with the environment it was defined in.
#[derive(Debug, PartialEq)]
pub enum Function {
    Native(NativeFunction),
    Regular { params: Vec<String>, body: Box<Expression>, env: Scope },
}

/// A node in the parsed tree; also the runtime value type of the language.
#[derive(Debug, PartialEq)]
pub enum Expression {
    Identifier(String),
    String(String),
    Integer(i32),
    /// A floating literal, kept as its numeral text (digits with at most
    /// one interior dot). The text is opaque to the core: it is stored,
    /// compared and printed, never computed with.
    Float(String),
    Fn(Function),
    List(Vec<Expression>),
}

/// The mathematical shape of an [`Expression`].
#[verifier::ext_equal]
pub enum ExprV {
    Identifier(Seq<char>),
    String(Seq<char>),
    Integer(i32),
    Float(Seq<char>),
    Fn(FunV),
    List(Seq<ExprV>),
}

/// The mathematical shape of a [`Function`].
#[verifier::ext_equal]
pub enum FunV {
    Native(NativeFunction),
    Regular { params: Seq<Seq<char>>, body: Box<ExprV>, env: ScopeV },
}

/// The shape of an [`Expression`], node by node.
pub open spec fn expr_view(e: Expression) -> ExprV
    decreases e,
{
    match e {
        Expression::Identifier(s) => ExprV::Identifier(s@),
        Expression::String(s) => ExprV::String(s@),
        Expression::Integer(n) => ExprV::Integer(n),
        Expression::Float(t) => ExprV::Float(t@),
        Expression::Fn(f) => ExprV::Fn(fun_view(f)),
        Expression::List(items) => ExprV::List(exprs_view(items@)),
    }
}

/// The shapes of a sequence of expressions, element by element.
pub open spec fn exprs_view(s: Seq<Expression>) -> Seq<ExprV>
    decreases s,
{
    Seq::new(
        s.len(),
        |i: int|
            if 0 <= i < s.len() {
                expr_view(s[i])
            } else {
                ExprV::List(Seq::empty())
            },
    )
}

/// The shape of a [`Function`].
pub open spec fn fun_view(f: Function) -> FunV
    decreases f,
{
    match f {
        Function::Native(n) => FunV::Native(n),
        Function::Regular { params, body, env } => FunV::Regular {
            params: Seq::new(
                params@.len(),
                |i: int|
                    if 0 <= i < params@.len() {
                        params@[i]@
                    } else {
                        Seq::empty()
                    },
            ),
            body: Box::new(expr_view(*body)),
            env: crate::eval::scope_view(env),
        },
    }
}

impl View for Expression {
    type V = ExprV;

    open spec fn view(&self) -> ExprV {
        expr_view(*self)
    }
}

impl View for Function {
    type V = FunV;

    open spec fn view(&self) -> FunV {
        fun_view(*self)
    }
}

impl Expression {
    /// A copy of this expression, equal to it node for node.
    pub fn duplicate(&self) -> (r: Expression)
        ensures
            r@ == self@,
        decreases *self,
    {
        match self {
            Expression::Identifier(s) => Expression::Identifier(s.clone()),
            Expression::String(s) => Expression::String(s.clone()),
            Expression::Integer(n) => Expression::Integer(*n),
            Expression::Float(t) => Expression::Float(t.clone()),
            Expression::Fn(f) => Expression::Fn(f.duplicate()),
            Expression::List(items) => {
                let mut copy: Vec<Expression> = Vec::new();
                let mut i: usize = 0;
                while i < items.len()
                    invariant
                        *self == Expression::List(*items),
                        i <= items@.len(),
                        copy@.len() == i,
                        forall|j: int|
                            0 <= j < i ==> expr_view(copy@[j]) == expr_view(items@[j]),
                    decreases items@.len() - i,
                {
                    proof {
                        assert(decreases_to!(*self => self->List_0));
                        assert(self->List_0 == *items);
                        assert(decreases_to!(*items => items@));
                        assert(decreases_to!(items@ => items@[i as int]));
                    }
                    let e = items[i].duplicate();
                    copy.push(e);
                    i += 1;
                }
                let r = Expression::List(copy);
                proof {
                    let s1 = r@->List_0;
                    let s2 = self@->List_0;
                    assert(s1.len() == s2.len());
                    assert forall|k: int| 0 <= k < s1.len() implies s1[k] == s2[k] by {
                        assert(s1[k] == expr_view(copy@[k]));
                        assert(s2[k] == expr_view(items@[k]));
                    }
                    assert(s1 =~= s2);
                    assert(r@ =~= self@);
                }
                r
            },
        }
    }
}

impl Function {
    /// A copy of this function value, equal to it node for node.
    pub fn duplicate(&self) -> (r: Function)
        ensures
            r@ == self@,
        decreases *self,
    {
        match self {
            Function::Native(n) => Function::Native(*n),
            Function::Regular { params, body, env } => {
                let mut params_copy: Vec<String> = Vec::new();
                let mut i: usize = 0;
                while i < params.len()
                    invariant
                        i <= params.len(),
                        params_copy@.len() == i,
                        forall|j: int| 0 <= j < i ==> params_copy@[j]@ == params@[j]@,
                    decreases params@.len() - i,
                {
                    params_copy.push(params[i].clone());
                    i += 1;
                }
                proof {
                    assert(decreases_to!(*self => *body));
                }
                let body_copy = Box::new(body.duplicate());
                let env_copy = env.duplicate();
                let r = Function::Regular { params: params_copy, body: body_copy, env: env_copy };
                proof {
                    assert(r@ =~= self@);
                }
                r
            },
        }
    }

    /// Applies this function value to a list of already-evaluated
    /// arguments, with the default recursion limit; agrees exactly with
    /// `apply_spec`.
    pub fn call(&self, args: &Vec<Expression>) -> (r: Result<Expression, crate::eval::EvalError>)
        ensures
            match r {
                Ok(e) => crate::eval::apply_spec(
                    self@,
                    exprs_view(args@),
                    crate::eval::RECURSION_LIMIT as nat,
                ) matches Ok(v) && e@ == v,
                Err(er) => crate::eval::apply_spec(
                    self@,
                    exprs_view(args@),
                    crate::eval::RECURSION_LIMIT as nat,
                ) matches Err(ev) && er@ == ev,
            },
    {
        crate::eval::apply(self, args, crate::eval::RECURSION_LIMIT)
    }
}

/// A failure of the parsing stage.
#[derive(Debug, Clone, PartialEq)]
pub enum ReaderError {
    /// A lexical failure, passed through.
    Tokenizer(TokenizerError),
    /// A closing parenthesis where a form was expected.
    UnbalancedParenthesis,
    /// A numeric literal whose text is not a well-formed numeral, or an
    /// integer numeral out of range; carries the text.
    MalformedNumber(String),
}

/// The mathematical shape of a [`ReaderError`].
pub enum ReadErrV {
    Tokenizer(TokenizerError),
    UnbalancedParenthesis,
    MalformedNumber(Seq<char>),
}

impl View for ReaderError {
    type V = ReadErrV;

    open spec fn view(&self) -> ReadErrV {
        match self {
            ReaderError::Tokenizer(e) => ReadErrV::Tokenizer(*e),
            ReaderError::UnbalancedParenthesis => ReadErrV::UnbalancedParenthesis,
            ReaderError::MalformedNumber(t) => ReadErrV::MalformedNumber(t@),
        }
    }
}

/// The number of dots in a piece of text.
pub open spec fn dot_count(s: Seq<char>) -> int
    decreases s,
{
    if s.len() == 0 {
        0
    } else {
        dot_count(s.drop_last()) + if s.last() == '.' {
            1int
        } else {
            0int
        }
    }
}

/// Whether every character is a decimal digit.
pub open spec fn all_digits(s: Seq<char>) -> bool {
    forall|i: int| 0 <= i < s.len() ==> is_digit(s[i])
}

/// The value of a string of decimal digits, most significant first.
pub open spec fn digits_value(s: Seq<char>) -> int
    decreases s,
{
    if s.len() == 0 {
        0
    } else {
        digits_value(s.drop_last()) * 10 + ((s.last() as u32) - 48)
    }
}

/// A well-formed floating numeral: digits around exactly one dot, with at
/// least one digit.
pub open spec fn is_float_numeral(s: Seq<char>) -> bool {
    &&& forall|i: int| 0 <= i < s.len() ==> (is_digit(s[i]) || s[i] == '.')
    &&& dot_count(s) == 1
    &&& exists|i: int| 0 <= i < s.len() && is_digit(s[i])
}

/// What a numeric literal's text denotes: with a dot, a floating literal
/// if the text is a well-formed floating numeral; without one, an integer
/// if the text is all digits and its value fits; otherwise a malformed
/// numeral.
pub open spec fn read_number_spec(text: Seq<char>) -> Result<ExprV, ReadErrV> {
    if dot_count(text) > 0 {
        if is_float_numeral(text) {
            Ok(ExprV::Float(text))
        } else {
            Err(ReadErrV::MalformedNumber(text))
        }
    } else {
        if text.len() > 0 && all_digits(text) && digits_value(text) <= i32::MAX as int {
            Ok(ExprV::Integer(digits_value(text) as i32))
        } else {
            Err(ReadErrV::MalformedNumber(text))
        }
    }
}

/// `p` where `lo <= p <= hi`, and `lo` otherwise. The parser's positions
/// always move forward and stay within the input (see
/// `lemma_read_items_bounds` and `lemma_read_form_bounds`), so the fallback
/// is never taken on a reachable path; it keeps the recursion measure of
/// the spec parser decreasing.
pub open spec fn clamp_pos(lo: int, hi: int, p: int) -> int {
    if lo <= p <= hi {
        p
    } else {
        lo
    }
}

/// Parsing one form whose first token, `tok`, has already been taken, the
/// cursor standing at `j`: an atom is itself; a left parenthesis opens a
/// list; a right parenthesis here is unbalanced.
pub open spec fn read_form_spec(s: Seq<char>, tok: TokenV, j: int) -> Result<(ExprV, int), ReadErrV>
    decreases s.len() - j, 1int,
{
    match tok {
        TokenV::Identifier(t) => Ok((ExprV::Identifier(t), j)),
        TokenV::Value(t, ValueType::String) => Ok((ExprV::String(t), j)),
        TokenV::Value(t, ValueType::Number) => match read_number_spec(t) {
            Ok(e) => Ok((e, j)),
            Err(e) => Err(e),
        },
        TokenV::LeftParen => read_items_spec(s, j, Seq::empty()),
        TokenV::RightParen => Err(ReadErrV::UnbalancedParenthesis),
    }
}

/// Parsing list items from position `i` until a right parenthesis, the
/// items read so far in `acc`.
pub open spec fn read_items_spec(s: Seq<char>, i: int, acc: Seq<ExprV>) -> Result<
    (ExprV, int),
    ReadErrV,
>
    decreases s.len() - i, 0int,
{
    match next_token(s, i) {
        Err(e) => Err(ReadErrV::Tokenizer(e)),
        Ok((tok, j0)) => {
            let j = clamp_pos(i + 1, s.len() as int, j0);
            match tok {
                TokenV::RightParen => Ok((ExprV::List(acc), j)),
                _ => match read_form_spec(s, tok, j) {
                    Ok((e, k0)) => read_items_spec(
                        s,
                        clamp_pos(j, s.len() as int, k0),
                        acc.push(e),
                    ),
                    Err(e) => Err(e),
                },
            }
        },
    }
}

/// Parsing exactly one complete form from position `i`: one token is
/// taken, then the form it opens.
pub open spec fn read_expr(s: Seq<char>, i: int) -> Result<(ExprV, int), ReadErrV>
    decreases s.len() - i, 2int,
{
    match next_token(s, i) {
        Err(e) => Err(ReadErrV::Tokenizer(e)),
        Ok((tok, j0)) => read_form_spec(s, tok, clamp_pos(i + 1, s.len() as int, j0)),
    }
}

/// The value of a string of digits is never negative.
proof fn lemma_digits_value_nonneg(s: Seq<char>)
    requires
        all_digits(s),
    ensures
        digits_value(s) >= 0,
    decreases s,
{
    if s.len() > 0 {
        assert(all_digits(s.drop_last()));
        lemma_digits_value_nonneg(s.drop_last());
    }
}

/// A prefix of a digit string never exceeds the whole string's value.
proof fn lemma_digits_value_prefix_le(s: Seq<char>, i: int)
    requires
        all_digits(s),
        0 <= i <= s.len(),
    ensures
        digits_value(s.subrange(0, i)) <= digits_value(s),
    decreases s.len() - i,
{
    if i < s.len() {
        lemma_digits_value_prefix_le(s, i + 1);
        let p1 = s.subrange(0, i + 1);
        let p0 = s.subrange(0, i);
        assert(p1.drop_last() =~= p0);
        assert(all_digits(p0));
        lemma_digits_value_nonneg(p0);
        assert(digits_value(p1) == digits_value(p0) * 10 + ((s[i] as u32) - 48));
    } else {
        assert(s.subrange(0, i) =~= s);
    }
}

/// Counting dots never goes negative, and a count of zero means no dots.
proof fn lemma_dot_count_zero(s: Seq<char>)
    ensures
        dot_count(s) >= 0,
        dot_count(s) == 0 ==> forall|k: int| 0 <= k < s.len() ==> s[k] != '.',
    decreases s,
{
    if s.len() > 0 {
        lemma_dot_count_zero(s.drop_last());
        assert forall|k: int| dot_count(s) == 0 && 0 <= k < s.len() implies s[k] != '.' by {
            if k < s.len() - 1 {
                assert(s.drop_last()[k] == s[k]);
            }
        }
    }
}

/// A successfully parsed list of items ends within the input, past where
/// it began.
pub proof fn lemma_read_items_bounds(s: Seq<char>, i: int, acc: Seq<ExprV>)
    requires
        0 <= i <= s.len(),
    ensures
        read_items_spec(s, i, acc) matches Ok(p) ==> i < p.1 <= s.len(),
    decreases s.len() - i, 0int,
{
    crate::tokenizer::lemma_next_token_advances(s, i);
    match next_token(s, i) {
        Ok((tok, j0)) => {
            let j = clamp_pos(i + 1, s.len() as int, j0);
            if !(tok is RightParen) {
                match read_form_spec(s, tok, j) {
                    Ok((e, k0)) => {
                        lemma_read_form_bounds(s, tok, j);
                        lemma_read_items_bounds(s, clamp_pos(j, s.len() as int, k0), acc.push(e));
                    },
                    Err(_) => {},
                }
            }
        },
        Err(_) => {},
    }
}

/// A successfully parsed form ends within the input, no earlier than the
/// cursor it started from.
pub proof fn lemma_read_form_bounds(s: Seq<char>, tok: TokenV, j: int)
    requires
        0 <= j <= s.len(),
    ensures
        read_form_spec(s, tok, j) matches Ok(p) ==> j <= p.1 <= s.len(),
    decreases s.len() - j, 1int,
{
    if tok is LeftParen {
        lemma_read_items_bounds(s, j, Seq::empty());
    }
}

/// The reader: owns a tokenizer and pulls tokens on demand, assembling one
/// complete expression per `read` call.
///
/// List parsing recurses once per nesting level, and every recursion step
/// consumes at least one character, so the recursion depth is bounded by
/// the length of the input; a host that must guard its call stack against
/// pathological input should bound the input it hands in.
pub struct Reader {
    tokenizer: Tokenizer,
}

impl Reader {
    /// The characters being parsed.
    pub closed spec fn input(&self) -> Seq<char> {
        self.tokenizer.input()
    }

    /// How many characters have been consumed.
    pub closed spec fn pos(&self) -> int {
        self.tokenizer.pos()
    }

    /// The cursor never runs past the end of the input.
    pub closed spec fn wf(&self) -> bool {
        self.tokenizer.wf()
    }

    pub fn from_string(code: &str) -> (r: Self)
        ensures
            r.wf(),
            r.input() == code@,
            r.pos() == 0,
    {
        Reader { tokenizer: Tokenizer::from_string(code) }
    }

    /// Parses exactly one complete form; agrees exactly with [`read_expr`].
    pub fn read(&mut self) -> (r: Result<Expression, ReaderError>)
        requires
            old(self).wf(),
        ensures
            final(self).wf(),
            final(self).input() == old(self).input(),
            match r {
                Ok(e) => read_expr(old(self).input(), old(self).pos()) matches Ok(p) && p.0 == e@
                    && final(self).pos() == p.1,
                Err(er) => read_expr(old(self).input(), old(self).pos()) matches Err(ev) && er@
                    == ev,
            },
    {
        let ghost s = self.input();
        let ghost i0 = self.pos();
        match self.tokenizer.next() {
            Err(e) => Err(ReaderError::Tokenizer(e)),
            Ok(token) => {
                proof {
                    crate::tokenizer::lemma_next_token_advances(s, i0);
                    assert(clamp_pos(i0 + 1, s.len() as int, self.pos()) == self.pos());
                }
                self.read_form(token)
            },
        }
    }

    /// Parses the form opened by an already-taken token; agrees exactly
    /// with [`read_form_spec`].
    fn read_form(&mut self, token: Token) -> (r: Result<Expression, ReaderError>)
        requires
            old(self).wf(),
        ensures
            final(self).wf(),
            final(self).input() == old(self).input(),
            match r {
                Ok(e) => read_form_spec(old(self).input(), token@, old(self).pos()) matches Ok(p)
                    && p.0 == e@ && final(self).pos() == p.1,
                Err(er) => read_form_spec(old(self).input(), token@, old(self).pos()) matches Err(
                    ev,
                ) && er@ == ev,
            },
        decreases old(self).input().len() - old(self).pos(), 1int,
    {
        match token {
            Token::Identifier(ident) => Ok(Expression::Identifier(ident)),
            Token::Value(value, ValueType::String) => Ok(Expression::String(value)),
            Token::Value(value, ValueType::Number) => self.read_number(value.as_str()),
            Token::LeftParen => self.read_list(),
            Token::RightParen => Err(ReaderError::UnbalancedParenthesis),
        }
    }

    /// Judges a numeric literal's text; agrees exactly with
    /// [`read_number_spec`].
    fn read_number(&self, value: &str) -> (r: Result<Expression, ReaderError>)
        ensures
            match r {
                Ok(e) => read_number_spec(value@) matches Ok(v) && e@ == v,
                Err(er) => read_number_spec(value@) matches Err(ev) && er@ == ev,
            },
    {
        let n = value.unicode_len();
        let mut dots: usize = 0;
        let mut has_digit = false;
        let mut all_ok = true;
        let mut i: usize = 0;
        while i < n
            invariant
                n == value@.len(),
                i <= n,
                dots <= i,
                dots == dot_count(value@.subrange(0, i as int)),
                has_digit == exists|k: int| 0 <= k < i && is_digit(value@[k]),
                all_ok == forall|k: int| 0 <= k < i ==> (is_digit(value@[k]) || value@[k] == '.'),
            decreases n - i,
        {
            let ghost prefix0 = value@.subrange(0, i as int);
            let c = value.get_char(i);
            if c == '.' {
                dots += 1;
            } else if crate::tokenizer::digit_char(c) {
                has_digit = true;
            } else {
                all_ok = false;
            }
            proof {
                assert(value@.subrange(0, i + 1).drop_last() =~= prefix0);
                assert(dot_count(value@.subrange(0, i + 1)) == dot_count(prefix0) + if value@[i as int]
                    == '.' {
                    1int
                } else {
                    0int
                });
            }
            i += 1;
        }
        proof {
            assert(value@.subrange(0, n as int) =~= value@);
        }
        if dots > 0 {
            if all_ok && dots == 1 && has_digit {
                Ok(Expression::Float(value.to_owned()))
            } else {
                Err(ReaderError::MalformedNumber(value.to_owned()))
            }
        } else {
            proof {
                lemma_dot_count_zero(value@);
            }
            if !all_ok || n == 0 {
                proof {
                    if !all_ok {
                        let k = choose|k: int|
                            0 <= k < n && !(is_digit(value@[k]) || value@[k] == '.');
                        assert(!is_digit(value@[k]));
                        assert(!all_digits(value@));
                    }
                }
                return Err(ReaderError::MalformedNumber(value.to_owned()));
            }
            let mut acc: u64 = 0;
            let mut j: usize = 0;
            while j < n
                invariant
                    n == value@.len(),
                    j <= n,
                    0 < n,
                    dot_count(value@) == 0,
                    all_digits(value@),
                    acc == digits_value(value@.subrange(0, j as int)),
                    acc <= i32::MAX as u64,
                decreases n - j,
            {
                let ghost prefix0 = value@.subrange(0, j as int);
                let c = value.get_char(j);
                let d: u32 = (c as u32) - 48;
                let next: u64 = acc * 10 + (d as u64);
                proof {
                    assert(value@.subrange(0, j + 1).drop_last() =~= prefix0);
                    assert(digits_value(value@.subrange(0, j + 1)) == digits_value(prefix0) * 10 + (
                    (value@[j as int] as u32) - 48));
                }
                if next > i32::MAX as u64 {
                    proof {
                        lemma_digits_value_prefix_le(value@, j + 1);
                        assert(digits_value(value@.subrange(0, j + 1)) == next as int);
                        assert(digits_value(value@) > i32::MAX as int);
                    }
                    return Err(ReaderError::MalformedNumber(value.to_owned()));
                }
                acc = next;
                j += 1;
            }
            proof {
                assert(value@.subrange(0, n as int) =~= value@);
            }
            Ok(Expression::Integer(acc as i32))
        }
    }

    /// Parses list items up to the closing parenthesis; agrees exactly
    /// with [`read_items_spec`].
    fn read_list(&mut self) -> (r: Result<Expression, ReaderError>)
        requires
            old(self).wf(),
        ensures
            final(self).wf(),
            final(self).input() == old(self).input(),
            match r {
                Ok(e) => read_items_spec(old(self).input(), old(self).pos(), Seq::empty()) matches
                    Ok(p) && p.0 == e@ && final(self).pos() == p.1,
                Err(er) => read_items_spec(old(self).input(), old(self).pos(), Seq::empty())
                    matches Err(ev) && er@ == ev,
            },
        decreases old(self).input().len() - old(self).pos(), 0int,
    {
        let ghost s = self.input();
        let ghost start = self.pos();
        let mut contents: Vec<Expression> = Vec::new();
        proof {
            assert(exprs_view(contents@) =~= Seq::<ExprV>::empty());
        }
        loop
            invariant
                self.wf(),
                self.input() == s,
                s == old(self).input(),
                start == old(self).pos(),
                0 <= start <= self.pos() <= s.len(),
                read_items_spec(s, start, Seq::empty()) == read_items_spec(
                    s,
                    self.pos(),
                    exprs_view(contents@),
                ),
            decreases s.len() - self.pos(),
        {
            let ghost p0 = self.pos();
            let ghost cv0 = exprs_view(contents@);
            match self.tokenizer.next() {
                Err(e) => {
                    proof {
                        assert(read_items_spec(s, p0, cv0) == Err::<(ExprV, int), ReadErrV>(
                            ReadErrV::Tokenizer(e),
                        ));
                    }
                    return Err(ReaderError::Tokenizer(e));
                },
                Ok(token) => {
                    let ghost tokv = token@;
                    proof {
                        crate::tokenizer::lemma_next_token_advances(s, p0);
                        assert(clamp_pos(p0 + 1, s.len() as int, self.pos()) == self.pos());
                    }
                    match token {
                        Token::RightParen => {
                            proof {
                                assert(read_items_spec(s, p0, cv0) == Ok::<
                                    (ExprV, int),
                                    ReadErrV,
                                >((ExprV::List(cv0), self.pos())));
                            }
                            return Ok(Expression::List(contents));
                        },
                        other => {
                            let ghost j = self.pos();
                            match self.read_form(other) {
                                Err(e) => {
                                    proof {
                                        assert(read_items_spec(s, p0, cv0) matches Err(ev) && e@
                                            == ev);
                                    }
                                    return Err(e);
                                },
                                Ok(expr) => {
                                    proof {
                                        lemma_read_form_bounds(s, tokv, j);
                                        assert(clamp_pos(j, s.len() as int, self.pos())
                                            == self.pos());
                                        assert(read_items_spec(s, p0, cv0) == read_items_spec(
                                            s,
                                            self.pos(),
                                            cv0.push(expr@),
                                        ));
                                    }
                                    contents.push(expr);
                                    proof {
                                        assert(exprs_view(contents@) =~= cv0.push(expr@));
                                    }
                                },
                            }
                        },
                    }
                },
            }
        }
    }
}

/// The character of one decimal digit.
pub open spec fn digit_to_char(d: int) -> char {
    if d == 0 {
        '0'
    } else if d == 1 {
        '1'
    } else if d == 2 {
        '2'
    } else if d == 3 {
        '3'
    } else if d == 4 {
        '4'
    } else if d == 5 {
        '5'
    } else if d == 6 {
        '6'
    } else if d == 7 {
        '7'
    } else if d == 8 {
        '8'
    } else {
        '9'
    }
}

/// The decimal digits of a non-negative number, most significant first.
pub open spec fn dec_digits(n: int) -> Seq<char>
    recommends
        n >= 0,
    decreases n,
{
    if n < 10 {
        seq![digit_to_char(n)]
    } else {
        dec_digits(n / 10).push(digit_to_char(n % 10))
    }
}

/// The text an integer prints as.
pub open spec fn print_int(n: int) -> Seq<char> {
    if n < 0 {
        seq!['-'] + dec_digits(-n)
    } else {
        dec_digits(n)
    }
}

/// The text an expression prints as: literals print their payload, a
/// function value prints as an opaque marker, and a list prints its items
/// in order between parentheses.
pub open spec fn print_spec(e: ExprV) -> Seq<char>
    decreases e,
{
    match e {
        ExprV::Identifier(t) => t,
        ExprV::String(t) => t,
        ExprV::Integer(n) => print_int(n as int),
        ExprV::Float(t) => t,
        ExprV::Fn(_) => "<function>"@,
        ExprV::List(items) => seq!['('] + print_all(items) + seq![')'],
    }
}

/// The texts of a sequence of expressions, in order.
pub open spec fn print_all(items: Seq<ExprV>) -> Seq<char>
    decreases items,
{
    if items.len() == 0 {
        Seq::empty()
    } else {
        print_spec(items.first()) + print_all(items.drop_first())
    }
}

/// The digits of a non-negative number are digits throughout and carry
/// exactly its value.
proof fn lemma_dec_digits(n: int)
    requires
        n >= 0,
    ensures
        all_digits(dec_digits(n)),
        digits_value(dec_digits(n)) == n,
        dec_digits(n).len() >= 1,
    decreases n,
{
    if n < 10 {
        let d = dec_digits(n);
        assert(d =~= seq![digit_to_char(n)]);
        assert(d.drop_last() =~= Seq::<char>::empty());
        assert(digits_value(d.drop_last()) == 0);
        assert((digit_to_char(n) as u32) == 48 + n);
        assert(digits_value(d) == n);
    } else {
        lemma_dec_digits(n / 10);
        let d = dec_digits(n);
        assert(d.drop_last() =~= dec_digits(n / 10));
        assert(all_digits(d));
        assert(digits_value(d) == digits_value(dec_digits(n / 10)) * 10 + ((digit_to_char(
            n % 10,
        ) as u32) - 48));
    }
}

/// Text that is all digits holds no dot.
proof fn lemma_all_digits_no_dot(s: Seq<char>)
    requires
        all_digits(s),
    ensures
        dot_count(s) == 0,
    decreases s,
{
    if s.len() > 0 {
        assert(all_digits(s.drop_last()));
        lemma_all_digits_no_dot(s.drop_last());
    }
}

/// Law: printing a literal produced by the reader and reading the text
/// back yields the very same value. This covers the self-evaluating
/// literals whose printed text is unambiguous: non-negative integer
/// literals and well-formed floating numerals (a string literal prints
/// without its quotes, so its text is not a literal of the language).
pub proof fn lemma_literal_round_trip(v: ExprV)
    requires
        (v matches ExprV::Integer(n) && n >= 0) || (v matches ExprV::Float(t)
            && is_float_numeral(t) && t.len() > 0 && is_digit(t[0])),
    ensures
        read_expr(print_spec(v), 0) == Ok::<(ExprV, int), ReadErrV>(
            (v, print_spec(v).len() as int),
        ),
{
    let s = print_spec(v);
    match v {
        ExprV::Integer(n) => {
            lemma_dec_digits(n as int);
            lemma_all_digits_no_dot(s);
        },
        _ => {},
    }
    assert(s.len() > 0 && is_digit(s[0]));
    assert(forall|k: int| 0 <= k < s.len() ==> (is_digit(s[k]) || s[k] == '.'));
    assert(skip_ws(s, 0) == 0);
    crate::tokenizer::lemma_number_token_all(s, 0, Seq::empty());
    assert(Seq::empty() + s.subrange(0, s.len() as int) =~= s);
    assert(next_token(s, 0) == Ok::<(TokenV, int), TokenizerError>(
        (TokenV::Value(s, ValueType::Number), s.len() as int),
    ));
    assert(clamp_pos(1, s.len() as int, s.len() as int) == s.len() as int);
    match v {
        ExprV::Integer(n) => {
            assert(read_number_spec(s) == Ok::<ExprV, ReadErrV>(ExprV::Integer(n)));
        },
        ExprV::Float(t) => {
            assert(dot_count(t) == 1);
            assert(read_number_spec(s) == Ok::<ExprV, ReadErrV>(ExprV::Float(t)));
        },
        _ => {},
    }
}

/// Law: a closing parenthesis where a form was expected is an explicit
/// unbalanced-parenthesis failure; no placeholder value is ever returned.
pub proof fn lemma_unbalanced_paren_fails(s: Seq<char>, i: int)
    requires
        0 <= i <= s.len(),
        next_token(s, i) matches Ok(p) && p.0 is RightParen,
    ensures
        read_expr(s, i) == Err::<(ExprV, int), ReadErrV>(ReadErrV::UnbalancedParenthesis),
{
}

/// The mirror image of a piece of text.
spec fn rev_chars(s: Seq<char>) -> Seq<char> {
    Seq::new(
        s.len(),
        |k: int|
            if 0 <= k < s.len() {
                s[s.len() - 1 - k]
            } else {
                ' '
            },
    )
}

/// Runtime table for [`digit_to_char`].
fn digit_char_of(d: u64) -> (c: char)
    requires
        d < 10,
    ensures
        c == digit_to_char(d as int),
{
    if d == 0 {
        '0'
    } else if d == 1 {
        '1'
    } else if d == 2 {
        '2'
    } else if d == 3 {
        '3'
    } else if d == 4 {
        '4'
    } else if d == 5 {
        '5'
    } else if d == 6 {
        '6'
    } else if d == 7 {
        '7'
    } else if d == 8 {
        '8'
    } else {
        '9'
    }
}

/// The decimal text of an integer; agrees exactly with [`print_int`].
fn int_to_string(n: i32) -> (r: String)
    ensures
        r@ == print_int(n as int),
{
    let neg = n < 0;
    let mut mag: u64 = if n >= 0 {
        n as u64
    } else {
        (-(n as i64)) as u64
    };
    let ghost m0 = mag as int;
    proof {
        assert(m0 == if n >= 0 { n as int } else { -(n as int) });
    }
    let mut ds: Vec<char> = Vec::new();
    proof {
        assert(rev_chars(ds@) =~= Seq::<char>::empty());
        assert(dec_digits(m0) =~= dec_digits(mag as int) + rev_chars(ds@));
    }
    while mag >= 10
        invariant
            mag >= 0,
            dec_digits(m0) == dec_digits(mag as int) + rev_chars(ds@),
        decreases mag,
    {
        let ghost mag0 = mag as int;
        let ghost ds0 = ds@;
        let d = mag % 10;
        let c = digit_char_of(d);
        ds.push(c);
        mag = mag / 10;
        proof {
            assert(dec_digits(mag0) == dec_digits(mag as int).push(c));
            assert(rev_chars(ds@) =~= seq![c] + rev_chars(ds0));
            assert(dec_digits(mag as int).push(c) + rev_chars(ds0) =~= dec_digits(mag as int) + (
            seq![c] + rev_chars(ds0)));
        }
    }
    let ghost ds1 = ds@;
    let c = digit_char_of(mag);
    ds.push(c);
    proof {
        assert(dec_digits(mag as int) =~= seq![c]);
        assert(rev_chars(ds@) =~= seq![c] + rev_chars(ds1));
        assert(dec_digits(m0) =~= rev_chars(ds@));
    }
    let mut r = String::new();
    if neg {
        push_char(&mut r, '-');
    }
    let ghost lead: Seq<char> = if neg {
        seq!['-']
    } else {
        Seq::empty()
    };
    proof {
        assert(r@ =~= lead + rev_chars(ds@).subrange(0, 0));
    }
    let mut i: usize = ds.len();
    while i > 0
        invariant
            i <= ds@.len(),
            lead == if neg { seq!['-'] } else { Seq::<char>::empty() },
            r@ == lead + rev_chars(ds@).subrange(0, ds@.len() - i),
        decreases i,
    {
        let ghost r0 = r@;
        let c2 = ds[i - 1];
        push_char(&mut r, c2);
        i -= 1;
        proof {
            assert(rev_chars(ds@)[ds@.len() - 1 - (i as int)] == ds@[i as int]);
            assert(rev_chars(ds@).subrange(0, ds@.len() - i) =~= rev_chars(ds@).subrange(
                0,
                ds@.len() - i - 1,
            ).push(ds@[i as int]));
            assert(r@ =~= lead + rev_chars(ds@).subrange(0, ds@.len() - i));
        }
    }
    proof {
        assert(rev_chars(ds@).subrange(0, ds@.len() as int) =~= rev_chars(ds@));
        assert(r@ =~= print_int(n as int));
    }
    r
}

impl Expression {
    /// The text this expression prints as; agrees exactly with
    /// [`print_spec`]. Lists print their items in order with no separator,
    /// and a string literal prints its raw text, without quotes.
    pub fn to_text(&self) -> (r: String)
        ensures
            r@ == print_spec(self@),
        decreases *self,
    {
        match self {
            Expression::Identifier(t) => t.clone(),
            Expression::String(t) => t.clone(),
            Expression::Integer(n) => int_to_string(*n),
            Expression::Float(t) => t.clone(),
            Expression::Fn(_) => String::from_str("<function>"),
            Expression::List(items) => {
                let ghost itemsv = exprs_view(items@);
                let mut r = String::new();
                push_char(&mut r, '(');
                proof {
                    assert(itemsv.subrange(0, itemsv.len() as int) =~= itemsv);
                    assert(r@ =~= seq!['(']);
                }
                let mut i: usize = 0;
                while i < items.len()
                    invariant
                        *self == Expression::List(*items),
                        i <= items@.len(),
                        itemsv == exprs_view(items@),
                        itemsv.len() == items@.len(),
                        seq!['('] + print_all(itemsv) == r@ + print_all(
                            itemsv.subrange(i as int, itemsv.len() as int),
                        ),
                    decreases items@.len() - i,
                {
                    proof {
                        assert(decreases_to!(*self => self->List_0));
                        assert(self->List_0 == *items);
                        assert(decreases_to!(*items => items@));
                        assert(decreases_to!(items@ => items@[i as int]));
                    }
                    let ghost r0 = r@;
                    let part = items[i].to_text();
                    r.append(part.as_str());
                    proof {
                        let rest = itemsv.subrange(i as int, itemsv.len() as int);
                        assert(rest.first() == itemsv[i as int]);
                        assert(itemsv[i as int] == expr_view(items@[i as int]));
                        assert(rest.drop_first() =~= itemsv.subrange(
                            i + 1,
                            itemsv.len() as int,
                        ));
                        assert(print_all(rest) == print_spec(itemsv[i as int]) + print_all(
                            itemsv.subrange(i + 1, itemsv.len() as int),
                        ));
                        assert(seq!['('] + print_all(itemsv) =~= r@ + print_all(
                            itemsv.subrange(i + 1, itemsv.len() as int),
                        ));
                    }
                    i += 1;
                }
                proof {
                    assert(itemsv.subrange(i as int, itemsv.len() as int) =~= Seq::<ExprV>::empty());
                    assert(print_all(Seq::<ExprV>::empty()) == Seq::<char>::empty());
                    assert(seq!['('] + print_all(itemsv) =~= r@);
                }
                push_char(&mut r, ')');
                proof {
                    assert(r@ =~= seq!['('] + print_all(itemsv) + seq![')']);
                }
                r
            },
        }
    }
}

} // verus!
