//! A streaming tokenizer: a single forward pass with one character of
//! lookahead, producing tokens lazily so the builder can start reducing
//! before the whole input is scanned, and an explicit end-of-stream marker
//! emitted exactly once after the input is exhausted.

use crate::error::ParseError;
use crate::eval::Exp;
use crate::eval::ExpModel;
use crate::eval::Operation;
use vstd::prelude::*;

verus! {

/// One token of the dice notation, or a partial expression already reduced
/// by the builder.
#[derive(Debug, PartialEq, Eq)]
pub enum Token {
    Number(i32),
    Operation(Operation),
    Die,
    KeepHighest,
    KeepLowest,
    OpenParen,
    CloseParen,
    Expression(Exp),
    EndOfStream,
}

/// The mathematical model of a token.
pub enum TokenModel {
    Number(int),
    Operation(Operation),
    Die,
    KeepHighest,
    KeepLowest,
    OpenParen,
    CloseParen,
    Expression(ExpModel),
    EndOfStream,
}

impl TokenModel {
    /// Binding strength used to gate reductions: keep-modifiers bind
    /// tightest, then the die operator, then the arithmetic operators;
    /// everything else never defers a reduction.
    pub open spec fn spec_precedence(self) -> u32 {
        match self {
            TokenModel::Operation(op) => op.spec_precedence(),
            TokenModel::Die => 10,
            TokenModel::KeepHighest => 20,
            TokenModel::KeepLowest => 20,
            _ => 0,
        }
    }
}

impl Token {
    pub open spec fn model(self) -> TokenModel {
        match self {
            Token::Number(n) => TokenModel::Number(n as int),
            Token::Operation(op) => TokenModel::Operation(op),
            Token::Die => TokenModel::Die,
            Token::KeepHighest => TokenModel::KeepHighest,
            Token::KeepLowest => TokenModel::KeepLowest,
            Token::OpenParen => TokenModel::OpenParen,
            Token::CloseParen => TokenModel::CloseParen,
            Token::Expression(e) => TokenModel::Expression(e.model()),
            Token::EndOfStream => TokenModel::EndOfStream,
        }
    }

    /// Binding strength of the token, as of its model.
    pub open spec fn spec_precedence(self) -> u32 {
        self.model().spec_precedence()
    }

    pub fn precedence(&self) -> (p: u32)
        ensures
            p == self.spec_precedence(),
    {
        match self {
            Token::Operation(op) => op.precedence(),
            Token::Die => 10,
            Token::KeepHighest => 20,
            Token::KeepLowest => 20,
            _ => 0,
        }
    }
}

/// The characters with the Unicode `White_Space` property, as the
/// documentation of `char::is_whitespace` lists them.
pub open spec fn is_space(c: char) -> bool {
    ||| 0x09 <= c as u32 <= 0x0D
    ||| c == ' '
    ||| c as u32 == 0x85
    ||| c as u32 == 0xA0
    ||| c as u32 == 0x1680
    ||| 0x2000 <= c as u32 <= 0x200A
    ||| c as u32 == 0x2028
    ||| c as u32 == 0x2029
    ||| c as u32 == 0x202F
    ||| c as u32 == 0x205F
    ||| c as u32 == 0x3000
}

/// Relies on char::is_whitespace: whether the character has the Unicode
/// White_Space property, which is exactly the table that `is_space`
/// writes out.
#[verifier::external_body]
fn is_space_char(c: char) -> (r: bool)
    ensures
        r == is_space(c),
{
    c.is_whitespace()
}

/// An ASCII decimal digit.
pub open spec fn is_digit(c: char) -> bool {
    48 <= c as u32 <= 57
}

fn is_digit_char(c: char) -> (r: bool)
    ensures
        r == is_digit(c),
{
    let u = c as u32;
    48 <= u && u <= 57
}

/// The numeric value of an ASCII decimal digit.
pub open spec fn digit_val(c: char) -> int {
    c as u32 - 48
}

/// The first position at or after `i` that does not hold a digit.
pub open spec fn scan_number_end(s: Seq<char>, i: int) -> int
    decreases s.len() - i,
{
    if 0 <= i < s.len() && is_digit(s[i]) {
        scan_number_end(s, i + 1)
    } else {
        i
    }
}

/// The value of the digit run `s[i..j)`, accumulated left to right with
/// wrapping `i32` arithmetic.
pub open spec fn digits_value(s: Seq<char>, i: int, j: int) -> i32
    decreases j - i,
{
    if j <= i {
        0
    } else {
        digits_value(s, i, j - 1).wrapping_mul(10).wrapping_add(digit_val(s[j - 1]) as i32)
    }
}

/// The first position at or after `i` that does not hold whitespace.
pub open spec fn skip_spaces(s: Seq<char>, i: int) -> int
    decreases s.len() - i,
{
    if 0 <= i < s.len() && is_space(s[i]) {
        skip_spaces(s, i + 1)
    } else {
        i
    }
}

/// What the tokenizer yields when asked for the next token at position `i`
/// of `s`: the token and the position after it, or a lexical error.
/// Whitespace is skipped; a leading `-` directly followed by a digit folds
/// into a negative number; `k` must be followed by a digit, `(`, `h` or
/// `l`.
pub open spec fn spec_next_token(s: Seq<char>, i: int) -> Result<(TokenModel, int), ParseError>
    decreases s.len() - i,
{
    if !(0 <= i < s.len()) {
        Err(ParseError::UnexpectedEnd)
    } else {
        let c = s[i];
        if is_space(c) {
            spec_next_token(s, i + 1)
        } else if c == '(' {
            Ok((TokenModel::OpenParen, i + 1))
        } else if c == ')' {
            Ok((TokenModel::CloseParen, i + 1))
        } else if is_digit(c) {
            let j = scan_number_end(s, i);
            Ok((TokenModel::Number(digits_value(s, i, j) as int), j))
        } else if c == '-' {
            if i + 1 < s.len() && is_digit(s[i + 1]) {
                let j = scan_number_end(s, i + 1);
                Ok((TokenModel::Number(digits_value(s, i + 1, j).wrapping_mul(-1i32) as int), j))
            } else {
                Ok((TokenModel::Operation(Operation::Sub), i + 1))
            }
        } else if c == '+' {
            Ok((TokenModel::Operation(Operation::Add), i + 1))
        } else if c == '*' {
            Ok((TokenModel::Operation(Operation::Mul), i + 1))
        } else if c == 'd' {
            Ok((TokenModel::Die, i + 1))
        } else if c == 'k' {
            if !(i + 1 < s.len()) {
                Err(ParseError::UnexpectedEnd)
            } else if is_digit(s[i + 1]) || s[i + 1] == '(' {
                Ok((TokenModel::KeepHighest, i + 1))
            } else if s[i + 1] == 'h' {
                Ok((TokenModel::KeepHighest, i + 2))
            } else if s[i + 1] == 'l' {
                Ok((TokenModel::KeepLowest, i + 2))
            } else {
                Err(
                    ParseError::UnexpectedSymbol {
                        symbol: s[i + 1],
                        position: (i + 1) as usize,
                    },
                )
            }
        } else {
            Err(ParseError::UnexpectedSymbol { symbol: c, position: i as usize })
        }
    }
}

/// What one `next` call on the tokenizer yields and where it leaves the
/// position: the next token while non-whitespace input remains, then one
/// `EndOfStream`, then nothing.
pub open spec fn spec_next(s: Seq<char>, pos: int, eof: bool) -> Option<
    Result<TokenModel, ParseError>,
> {
    let p = skip_spaces(s, pos);
    if p < s.len() {
        match spec_next_token(s, p) {
            Ok((t, _)) => Some(Ok(t)),
            Err(e) => Some(Err(e)),
        }
    } else if !eof {
        Some(Ok(TokenModel::EndOfStream))
    } else {
        None
    }
}

/// The position after one `next` call at position `pos`.
pub open spec fn spec_next_pos(s: Seq<char>, pos: int) -> int {
    let p = skip_spaces(s, pos);
    if p < s.len() {
        match spec_next_token(s, p) {
            Ok((_, j)) => j,
            Err(_) => p,
        }
    } else {
        p
    }
}

/// A streaming tokenizer over an input string: a forward pass that hands
/// out one token per `next` call and cannot be restarted.
pub struct Tokenizer<'a> {
    input: &'a str,
    position: usize,
    has_passed_eof: bool,
}

impl<'a> Tokenizer<'a> {
    pub closed spec fn spec_input(&self) -> Seq<char> {
        self.input@
    }

    pub closed spec fn spec_position(&self) -> int {
        self.position as int
    }

    pub closed spec fn spec_passed_eof(&self) -> bool {
        self.has_passed_eof
    }

    pub fn new(input: &'a str) -> (t: Tokenizer<'a>)
        ensures
            t.spec_input() == input@,
            t.spec_position() == 0,
            !t.spec_passed_eof(),
    {
        Tokenizer { input, position: 0, has_passed_eof: false }
    }

    /// Advance past whitespace.
    fn eat_spaces(&mut self)
        requires
            old(self).spec_position() <= old(self).spec_input().len(),
        ensures
            final(self).spec_input() == old(self).spec_input(),
            final(self).spec_passed_eof() == old(self).spec_passed_eof(),
            final(self).spec_position() == skip_spaces(
                old(self).spec_input(),
                old(self).spec_position(),
            ),
            final(self).spec_position() <= final(self).spec_input().len(),
    {
        let len = self.input.unicode_len();
        while self.position < len && is_space_char(self.input.get_char(self.position))
            invariant
                len == self.spec_input().len(),
                self.spec_input() == old(self).spec_input(),
                self.spec_passed_eof() == old(self).spec_passed_eof(),
                self.spec_position() <= len,
                skip_spaces(self.spec_input(), self.spec_position()) == skip_spaces(
                    old(self).spec_input(),
                    old(self).spec_position(),
                ),
            decreases len - self.position,
        {
            self.position = self.position + 1;
        }
    }

    /// Produce the next token, advancing past it. Fails with the lexical
    /// error that `spec_next_token` names when the input holds an
    /// unrecognized symbol or ends mid-token.
    pub fn next_token(&mut self) -> (r: Result<Token, ParseError>)
        requires
            old(self).spec_position() <= old(self).spec_input().len(),
        ensures
            final(self).spec_input() == old(self).spec_input(),
            final(self).spec_passed_eof() == old(self).spec_passed_eof(),
            final(self).spec_position() <= final(self).spec_input().len(),
            match spec_next_token(old(self).spec_input(), old(self).spec_position()) {
                Ok((t, j)) => r matches Ok(rt) && rt.model() == t && final(self).spec_position()
                    == j,
                Err(e) => r == Result::<Token, ParseError>::Err(e) && final(self).spec_position()
                    == skip_spaces(old(self).spec_input(), old(self).spec_position()),
            },
    {
        self.eat_spaces();
        proof {
            lemma_spec_next_token_skips(
                old(self).spec_input(),
                old(self).spec_position(),
                self.spec_position(),
            );
            lemma_skip_spaces_idempotent(old(self).spec_input(), old(self).spec_position());
            assert(skip_spaces(self.spec_input(), self.spec_position()) == self.spec_position());
            if self.spec_position() < self.spec_input().len() && is_space(
                self.spec_input()[self.spec_position()],
            ) {
                lemma_skip_spaces_lower_bound(self.spec_input(), self.spec_position() + 1);
                assert(false);
            }
        }
        let len = self.input.unicode_len();
        if self.position >= len {
            return Err(ParseError::UnexpectedEnd);
        }
        let c = self.input.get_char(self.position);
        if c == '(' {
            self.position = self.position + 1;
            Ok(Token::OpenParen)
        } else if c == ')' {
            self.position = self.position + 1;
            Ok(Token::CloseParen)
        } else if is_digit_char(c) {
            let n = self.read_number();
            Ok(Token::Number(n))
        } else if c == '-' {
            if self.position + 1 < len && is_digit_char(self.input.get_char(self.position + 1)) {
                self.position = self.position + 1;
                let n = self.read_number();
                Ok(Token::Number(n.wrapping_mul(-1)))
            } else {
                self.position = self.position + 1;
                Ok(Token::Operation(Operation::Sub))
            }
        } else if c == '+' {
            self.position = self.position + 1;
            Ok(Token::Operation(Operation::Add))
        } else if c == '*' {
            self.position = self.position + 1;
            Ok(Token::Operation(Operation::Mul))
        } else if c == 'd' {
            self.position = self.position + 1;
            Ok(Token::Die)
        } else if c == 'k' {
            if self.position + 1 >= len {
                return Err(ParseError::UnexpectedEnd);
            }
            let c2 = self.input.get_char(self.position + 1);
            if is_digit_char(c2) || c2 == '(' {
                self.position = self.position + 1;
                Ok(Token::KeepHighest)
            } else if c2 == 'h' {
                self.position = self.position + 2;
                Ok(Token::KeepHighest)
            } else if c2 == 'l' {
                self.position = self.position + 2;
                Ok(Token::KeepLowest)
            } else {
                Err(ParseError::UnexpectedSymbol { symbol: c2, position: self.position + 1 })
            }
        } else {
            Err(ParseError::UnexpectedSymbol { symbol: c, position: self.position })
        }
    }

    /// Read a run of digits starting at the current position, accumulating
    /// the value left to right with wrapping arithmetic.
    fn read_number(&mut self) -> (n: i32)
        requires
            old(self).spec_position() < old(self).spec_input().len(),
            is_digit(old(self).spec_input()[old(self).spec_position()]),
        ensures
            final(self).spec_input() == old(self).spec_input(),
            final(self).spec_passed_eof() == old(self).spec_passed_eof(),
            final(self).spec_position() == scan_number_end(
                old(self).spec_input(),
                old(self).spec_position(),
            ),
            final(self).spec_position() <= final(self).spec_input().len(),
            n == digits_value(
                old(self).spec_input(),
                old(self).spec_position(),
                final(self).spec_position(),
            ),
    {
        let len = self.input.unicode_len();
        let ghost start = self.spec_position();
        let mut value: i32 = 0;
        while self.position < len && is_digit_char(self.input.get_char(self.position))
            invariant
                len == self.spec_input().len(),
                self.spec_input() == old(self).spec_input(),
                self.spec_passed_eof() == old(self).spec_passed_eof(),
                start <= self.spec_position() <= len,
                scan_number_end(self.spec_input(), self.spec_position()) == scan_number_end(
                    self.spec_input(),
                    start,
                ),
                value == digits_value(self.spec_input(), start, self.spec_position()),
            decreases len - self.position,
        {
            let c = self.input.get_char(self.position);
            let d = (c as u32 - 48) as i32;
            value = value.wrapping_mul(10).wrapping_add(d);
            self.position = self.position + 1;
        }
        value
    }

    /// One step of the token stream: the next token while input remains,
    /// then `EndOfStream` exactly once, then nothing.
    pub fn next(&mut self) -> (r: Option<Result<Token, ParseError>>)
        requires
            old(self).spec_position() <= old(self).spec_input().len(),
        ensures
            final(self).spec_input() == old(self).spec_input(),
            final(self).spec_position() <= final(self).spec_input().len(),
            match spec_next(
                old(self).spec_input(),
                old(self).spec_position(),
                old(self).spec_passed_eof(),
            ) {
                Some(Ok(t)) => r matches Some(Ok(rt)) && rt.model() == t,
                Some(Err(e)) => r == Some(Result::<Token, ParseError>::Err(e)),
                None => r is None,
            },
            final(self).spec_position() == spec_next_pos(
                old(self).spec_input(),
                old(self).spec_position(),
            ),
            final(self).spec_passed_eof() == (old(self).spec_passed_eof() || skip_spaces(
                old(self).spec_input(),
                old(self).spec_position(),
            ) >= old(self).spec_input().len()),
    {
        self.eat_spaces();
        proof {
            lemma_spec_next_token_skips(
                old(self).spec_input(),
                old(self).spec_position(),
                self.spec_position(),
            );
            lemma_skip_spaces_idempotent(old(self).spec_input(), old(self).spec_position());
        }
        let len = self.input.unicode_len();
        if self.position < len {
            Some(self.next_token())
        } else if !self.has_passed_eof {
            self.has_passed_eof = true;
            Some(Ok(Token::EndOfStream))
        } else {
            None
        }
    }
}

/// Skipping whitespace first does not change the next token: the token
/// scanner itself skips whitespace.
proof fn lemma_spec_next_token_skips(s: Seq<char>, i: int, p: int)
    requires
        p == skip_spaces(s, i),
    ensures
        spec_next_token(s, i) == spec_next_token(s, p),
    decreases s.len() - i,
{
    if 0 <= i < s.len() && is_space(s[i]) {
        lemma_spec_next_token_skips(s, i + 1, p);
    }
}

proof fn lemma_skip_spaces_lower_bound(s: Seq<char>, i: int)
    ensures
        skip_spaces(s, i) >= i,
    decreases s.len() - i,
{
    if 0 <= i < s.len() && is_space(s[i]) {
        lemma_skip_spaces_lower_bound(s, i + 1);
    }
}

proof fn lemma_skip_spaces_idempotent(s: Seq<char>, i: int)
    ensures
        skip_spaces(s, skip_spaces(s, i)) == skip_spaces(s, i),
    decreases s.len() - i,
{
    if 0 <= i < s.len() && is_space(s[i]) {
        lemma_skip_spaces_idempotent(s, i + 1);
    }
}

} // verus!
