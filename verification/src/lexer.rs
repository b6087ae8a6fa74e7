//! The tokenizer: turns source text into an ordered sequence of tokens.
//!
//! Tokenization is re-derived from scratch on every call and is modelled by
//! the spec function [`lex_from`], which scans a `Seq<char>` exactly as the
//! executable tokenizer scans the input: whitespace is skipped, parentheses
//! and single-character operators are single tokens, a `"` starts a string
//! literal copied verbatim to the next `"` (or to the end of input), a digit
//! starts a number (a float when the run holds one '.', a hard error when it
//! holds more than one or an integer does not fit in `i64`), and an
//! alphabetic or '_' character starts a symbol or keyword.  Any other
//! character silently ends tokenization.

use vstd::prelude::*;

use crate::fp::{dot_count, float_of_decimal, is_digit_char, parse_float_bits};

verus! {

use vstd::string::StrSliceExecFns;
use vstd::string::StringExecFns;

/// What `char::is_whitespace` returns; a function of the character alone.
pub uninterp spec fn is_ws_char(c: char) -> bool;

/// What `char::is_alphabetic` returns; a function of the character alone.
pub uninterp spec fn is_alpha_char(c: char) -> bool;

/// Relies on `char::is_whitespace`: true exactly on characters with the
/// Unicode `White_Space` property, whose ASCII members are the six listed.
pub assume_specification[ char::is_whitespace ](c: char) -> (r: bool)
    ensures
        r == is_ws_char(c),
        (c as u32) < 128 ==> r == ((c as u32) == 32 || 9 <= (c as u32) && (c as u32) <= 13),
;

/// Relies on `char::is_alphabetic`: true exactly on characters with the
/// Unicode `Alphabetic` property, whose ASCII members are the letters.
pub assume_specification[ char::is_alphabetic ](c: char) -> (r: bool)
    ensures
        r == is_alpha_char(c),
        (c as u32) < 128 ==> r == (65 <= (c as u32) && (c as u32) <= 90 || 97 <= (c as u32)
            && (c as u32) <= 122),
;

/// One token of the source language.
#[derive(Debug, Clone, PartialEq)]
pub enum Token {
    Integer(i64),
    Symbol(String),
    LParen,
    RParen,
    /// An IEEE 754 binary64 bit pattern.
    Float(u64),
    String(String),
    /// A one-character operator drawn from `+ - * / % < > = | &`.
    BinaryOp(String),
    /// A member of the fixed reserved word set.
    Keyword(String),
}

/// The mathematical model of a token: strings become character sequences.
pub enum TokenV {
    Integer(i64),
    Symbol(Seq<char>),
    LParen,
    RParen,
    Float(u64),
    Str(Seq<char>),
    BinaryOp(Seq<char>),
    Keyword(Seq<char>),
}

impl View for Token {
    type V = TokenV;

    open spec fn view(&self) -> TokenV {
        match self {
            Token::Integer(i) => TokenV::Integer(*i),
            Token::Symbol(s) => TokenV::Symbol(s@),
            Token::LParen => TokenV::LParen,
            Token::RParen => TokenV::RParen,
            Token::Float(b) => TokenV::Float(*b),
            Token::String(s) => TokenV::Str(s@),
            Token::BinaryOp(s) => TokenV::BinaryOp(s@),
            Token::Keyword(s) => TokenV::Keyword(s@),
        }
    }
}

/// The models of a sequence of tokens.
pub open spec fn token_views(ts: Seq<Token>) -> Seq<TokenV> {
    ts.map_values(|t: Token| t@)
}

/// A hard tokenization failure; both kinds concern numeric literals.
#[derive(Debug, Clone, Copy, PartialEq, Eq)]
pub enum LexError {
    /// A digit-initiated run held more than one '.'.
    TooManyDots,
    /// An integer literal does not fit in a 64-bit signed integer.
    IntegerOverflow,
}

/// The text of a tokenization failure's message.
pub open spec fn lex_message(e: LexError) -> Seq<char> {
    match e {
        LexError::TooManyDots => "Malformed number: more than one '.'"@,
        LexError::IntegerOverflow => "Malformed number: integer literal out of range"@,
    }
}

impl LexError {
    /// A descriptive message for the shell.
    pub fn message(&self) -> (m: String)
        ensures
            m@ == lex_message(*self),
    {
        match self {
            LexError::TooManyDots => "Malformed number: more than one '.'".to_owned(),
            LexError::IntegerOverflow => "Malformed number: integer literal out of range".to_owned(),
        }
    }
}

/// A character from the fixed one-character operator set.
pub open spec fn is_op_char(c: char) -> bool {
    c == '+' || c == '-' || c == '*' || c == '/' || c == '%' || c == '<' || c == '>' || c == '='
        || c == '|' || c == '&'
}

/// A character that continues a symbol: anything but whitespace and
/// parentheses.
pub open spec fn is_symbol_char(c: char) -> bool {
    !is_ws_char(c) && c != '(' && c != ')'
}

/// A character that continues a number: a digit or '.'.
pub open spec fn is_number_char(c: char) -> bool {
    is_digit_char(c) || c == '.'
}

/// The member test of the fixed reserved word set.
pub open spec fn is_keyword_text(s: Seq<char>) -> bool {
    ||| s == "define"@
    ||| s == "list"@
    ||| s == "print"@
    ||| s == "lambda"@
    ||| s == "range"@
    ||| s == "cons"@
    ||| s == "car"@
    ||| s == "cdr"@
    ||| s == "length"@
    ||| s == "null?"@
    ||| s == "begin"@
    ||| s == "let"@
    ||| s == "if"@
    ||| s == "else"@
    ||| s == "cond"@
}

/// The length of the whitespace run starting at `i`.
pub open spec fn ws_run(s: Seq<char>, i: int) -> nat
    decreases s.len() - i,
{
    if i < 0 || i >= s.len() {
        0
    } else if is_ws_char(s[i]) {
        1 + ws_run(s, i + 1)
    } else {
        0
    }
}

/// The length of the symbol-character run starting at `i`.
pub open spec fn sym_run(s: Seq<char>, i: int) -> nat
    decreases s.len() - i,
{
    if i < 0 || i >= s.len() {
        0
    } else if is_symbol_char(s[i]) {
        1 + sym_run(s, i + 1)
    } else {
        0
    }
}

/// The length of the number-character run starting at `i`.
pub open spec fn num_run(s: Seq<char>, i: int) -> nat
    decreases s.len() - i,
{
    if i < 0 || i >= s.len() {
        0
    } else if is_number_char(s[i]) {
        1 + num_run(s, i + 1)
    } else {
        0
    }
}

/// The length of the run of non-quote characters starting at `i`.
pub open spec fn str_run(s: Seq<char>, i: int) -> nat
    decreases s.len() - i,
{
    if i < 0 || i >= s.len() {
        0
    } else if s[i] != '"' {
        1 + str_run(s, i + 1)
    } else {
        0
    }
}

/// The numeric value of a digit character (0 on any other character).
pub open spec fn digit_of(c: char) -> nat {
    if is_digit_char(c) {
        ((c as u32) - 48) as nat
    } else {
        0
    }
}

/// The value of a run of decimal digits.
pub open spec fn digits_value(s: Seq<char>) -> nat
    decreases s.len(),
{
    if s.len() == 0 {
        0
    } else {
        digits_value(s.drop_last()) * 10 + digit_of(s.last())
    }
}

/// Prepends one token to a tokenization outcome.
pub open spec fn cons_token(t: TokenV, rest: Result<Seq<TokenV>, LexError>) -> Result<
    Seq<TokenV>,
    LexError,
> {
    match rest {
        Ok(ts) => Ok(seq![t] + ts),
        Err(e) => Err(e),
    }
}

/// Prepends finished tokens to a tokenization outcome.
pub open spec fn prepend_tokens(ts: Seq<TokenV>, rest: Result<Seq<TokenV>, LexError>) -> Result<
    Seq<TokenV>,
    LexError,
> {
    match rest {
        Ok(more) => Ok(ts + more),
        Err(e) => Err(e),
    }
}

pub proof fn lemma_ws_run_bound(s: Seq<char>, i: int)
    requires
        0 <= i <= s.len(),
    ensures
        i + ws_run(s, i) <= s.len(),
    decreases s.len() - i,
{
    if i < s.len() && is_ws_char(s[i]) {
        lemma_ws_run_bound(s, i + 1);
    }
}

pub proof fn lemma_sym_run_bound(s: Seq<char>, i: int)
    requires
        0 <= i <= s.len(),
    ensures
        i + sym_run(s, i) <= s.len(),
    decreases s.len() - i,
{
    if i < s.len() && is_symbol_char(s[i]) {
        lemma_sym_run_bound(s, i + 1);
    }
}

pub proof fn lemma_num_run_bound(s: Seq<char>, i: int)
    requires
        0 <= i <= s.len(),
    ensures
        i + num_run(s, i) <= s.len(),
    decreases s.len() - i,
{
    if i < s.len() && is_number_char(s[i]) {
        lemma_num_run_bound(s, i + 1);
    }
}

pub proof fn lemma_str_run_bound(s: Seq<char>, i: int)
    requires
        0 <= i <= s.len(),
    ensures
        i + str_run(s, i) <= s.len(),
    decreases s.len() - i,
{
    if i < s.len() && s[i] != '"' {
        lemma_str_run_bound(s, i + 1);
    }
}

/// The token sequence produced from position `i` onward, or the hard error
/// met first.  This is the model of the whole tokenizer.
pub open spec fn lex_from(s: Seq<char>, i: int) -> Result<Seq<TokenV>, LexError>
    decreases s.len() - i,
    when 0 <= i <= s.len()
{
    if i >= s.len() {
        Ok(Seq::empty())
    } else {
        let c = s[i];
        if is_ws_char(c) {
            lex_from(s, i + 1)
        } else if c == '(' {
            cons_token(TokenV::LParen, lex_from(s, i + 1))
        } else if c == ')' {
            cons_token(TokenV::RParen, lex_from(s, i + 1))
        } else if c == '"' {
            let body = str_run(s, i + 1);
            proof {
                lemma_str_run_bound(s, i + 1);
            }
            let close = i + 1 + body;
            let next = if close < s.len() {
                close + 1
            } else {
                close
            };
            cons_token(TokenV::Str(s.subrange(i + 1, close)), lex_from(s, next))
        } else if is_digit_char(c) {
            let run = num_run(s, i);
            proof {
                lemma_num_run_bound(s, i);
            }
            let text = s.subrange(i, i + run);
            if dot_count(text) > 1 {
                Err(LexError::TooManyDots)
            } else if dot_count(text) == 1 {
                cons_token(TokenV::Float(float_of_decimal(text)), lex_from(s, i + run))
            } else if digits_value(text) > i64::MAX {
                Err(LexError::IntegerOverflow)
            } else {
                cons_token(TokenV::Integer(digits_value(text) as i64), lex_from(s, i + run))
            }
        } else if is_op_char(c) {
            cons_token(TokenV::BinaryOp(seq![c]), lex_from(s, i + 1))
        } else if is_alpha_char(c) || c == '_' {
            let run = sym_run(s, i);
            proof {
                lemma_sym_run_bound(s, i);
            }
            let text = s.subrange(i, i + run);
            if is_keyword_text(text) {
                cons_token(TokenV::Keyword(text), lex_from(s, i + run))
            } else {
                cons_token(TokenV::Symbol(text), lex_from(s, i + run))
            }
        } else {
            // An unrecognized character silently ends tokenization.
            Ok(Seq::empty())
        }
    }
}

/// Tokenization is invariant under skipping leading whitespace.
pub proof fn lemma_lex_skip_ws(s: Seq<char>, i: int)
    requires
        0 <= i <= s.len(),
    ensures
        lex_from(s, i) == lex_from(s, i + ws_run(s, i)),
    decreases s.len() - i,
{
    if i < s.len() && is_ws_char(s[i]) {
        lemma_lex_skip_ws(s, i + 1);
    }
}

/// Every character of a number run continues a number.
pub proof fn lemma_num_run_chars(s: Seq<char>, i: int)
    requires
        0 <= i <= s.len(),
    ensures
        forall|k: int| i <= k < i + num_run(s, i) ==> is_number_char(#[trigger] s[k]),
    decreases s.len() - i,
{
    if i < s.len() && is_number_char(s[i]) {
        lemma_num_run_chars(s, i + 1);
    }
}

/// A sequence without dots has no '.' anywhere.
pub proof fn lemma_dot_count_zero(s: Seq<char>)
    requires
        dot_count(s) == 0,
    ensures
        forall|k: int| 0 <= k < s.len() ==> s[k] != '.',
    decreases s.len(),
{
    if s.len() > 0 {
        lemma_dot_count_zero(s.drop_last());
        assert forall|k: int| 0 <= k < s.len() implies s[k] != '.' by {
            if k < s.len() - 1 {
                assert(s.drop_last()[k] == s[k]);
            }
        }
    }
}

/// The value of a digit run grows (weakly) with its length.
pub proof fn lemma_digits_value_prefix_le(s: Seq<char>, k: int)
    requires
        0 <= k <= s.len(),
    ensures
        digits_value(s.subrange(0, k)) <= digits_value(s),
    decreases s.len() - k,
{
    if k == s.len() {
        assert(s.subrange(0, k) =~= s);
    } else {
        lemma_digits_value_prefix_le(s, k + 1);
        assert(s.subrange(0, k + 1).drop_last() =~= s.subrange(0, k));
        assert(digits_value(s.subrange(0, k + 1)) == digits_value(s.subrange(0, k)) * 10
            + digit_of(s[k]));
    }
}

/// Character-for-character equality of two string slices.
pub(crate) fn str_eq(a: &str, b: &str) -> (r: bool)
    ensures
        r == (a@ == b@),
{
    let n = a.unicode_len();
    let m = b.unicode_len();
    if n != m {
        return false;
    }
    let mut k: usize = 0;
    while k < n
        invariant
            k <= n,
            n == a@.len(),
            n == b@.len(),
            forall|j: int| 0 <= j < k ==> a@[j] == b@[j],
        decreases n - k,
    {
        if a.get_char(k) != b.get_char(k) {
            return false;
        }
        k = k + 1;
    }
    proof {
        assert(a@ =~= b@);
    }
    true
}

/// The reserved word test, as the tokenizer applies it to a finished run.
fn is_keyword_str(s: &str) -> (r: bool)
    ensures
        r == is_keyword_text(s@),
{
    str_eq(s, "define") || str_eq(s, "list") || str_eq(s, "print") || str_eq(s, "lambda") || str_eq(
        s,
        "range",
    ) || str_eq(s, "cons") || str_eq(s, "car") || str_eq(s, "cdr") || str_eq(s, "length") || str_eq(
        s,
        "null?",
    ) || str_eq(s, "begin") || str_eq(s, "let") || str_eq(s, "if") || str_eq(s, "else") || str_eq(
        s,
        "cond",
    )
}

fn symbol_char(c: char) -> (r: bool)
    ensures
        r == is_symbol_char(c),
{
    !c.is_whitespace() && c != '(' && c != ')'
}

fn number_char(c: char) -> (r: bool)
    ensures
        r == is_number_char(c),
{
    let u = c as u32;
    (48 <= u && u <= 57) || c == '.'
}

fn op_char(c: char) -> (r: bool)
    ensures
        r == is_op_char(c),
{
    c == '+' || c == '-' || c == '*' || c == '/' || c == '%' || c == '<' || c == '>' || c == '='
        || c == '|' || c == '&'
}

/// The one-character text of an operator token.
fn op_text(c: char) -> (s: String)
    requires
        is_op_char(c),
    ensures
        s@ == seq![c],
{
    if c == '+' {
        proof {
            reveal_strlit("+");
            assert("+"@ =~= seq![c]);
        }
        String::from_str("+")
    } else if c == '-' {
        proof {
            reveal_strlit("-");
            assert("-"@ =~= seq![c]);
        }
        String::from_str("-")
    } else if c == '*' {
        proof {
            reveal_strlit("*");
            assert("*"@ =~= seq![c]);
        }
        String::from_str("*")
    } else if c == '/' {
        proof {
            reveal_strlit("/");
            assert("/"@ =~= seq![c]);
        }
        String::from_str("/")
    } else if c == '%' {
        proof {
            reveal_strlit("%");
            assert("%"@ =~= seq![c]);
        }
        String::from_str("%")
    } else if c == '<' {
        proof {
            reveal_strlit("<");
            assert("<"@ =~= seq![c]);
        }
        String::from_str("<")
    } else if c == '>' {
        proof {
            reveal_strlit(">");
            assert(">"@ =~= seq![c]);
        }
        String::from_str(">")
    } else if c == '=' {
        proof {
            reveal_strlit("=");
            assert("="@ =~= seq![c]);
        }
        String::from_str("=")
    } else if c == '|' {
        proof {
            reveal_strlit("|");
            assert("|"@ =~= seq![c]);
        }
        String::from_str("|")
    } else {
        proof {
            reveal_strlit("&");
            assert("&"@ =~= seq![c]);
        }
        String::from_str("&")
    }
}

/// A cursor over the characters of one input string.
pub struct Tokenizer<'a> {
    input: &'a str,
    /// Index of the current character, counted in characters.
    pos: usize,
    /// Number of characters in `input`.
    len: usize,
}

impl<'a> Tokenizer<'a> {
    /// The cursor's well-formedness: `len` caches the character count and
    /// `pos` never passes the end.
    pub closed spec fn wf(self) -> bool {
        self.len == self.input@.len() && self.pos <= self.len
    }

    /// The text being tokenized.
    pub closed spec fn text(self) -> Seq<char> {
        self.input@
    }

    /// The current position, in characters.
    pub closed spec fn at(self) -> int {
        self.pos as int
    }

    /// The current character, if any.
    pub closed spec fn current_spec(self) -> Option<char> {
        if self.pos < self.input@.len() {
            Some(self.input@[self.pos as int])
        } else {
            None
        }
    }

    pub fn new(input: &'a str) -> (t: Tokenizer<'a>)
        ensures
            t.wf(),
            t.text() == input@,
            t.at() == 0,
    {
        let len = input.unicode_len();
        Tokenizer { input, pos: 0, len }
    }

    fn current(&self) -> (c: Option<char>)
        requires
            self.wf(),
        ensures
            c == self.current_spec(),
    {
        if self.pos < self.len {
            Some(self.input.get_char(self.pos))
        } else {
            None
        }
    }

    /// Steps to the next character and returns it.
    pub fn advance(&mut self) -> (c: Option<char>)
        requires
            old(self).wf(),
        ensures
            final(self).wf(),
            final(self).text() == old(self).text(),
            final(self).at() == if old(self).at() < old(self).text().len() {
                old(self).at() + 1
            } else {
                old(self).at()
            },
            c == final(self).current_spec(),
    {
        if self.pos < self.len {
            self.pos = self.pos + 1;
        }
        self.current()
    }

    /// Skips the whitespace run at the current position.
    pub fn eat_whitespace(&mut self)
        requires
            old(self).wf(),
        ensures
            final(self).wf(),
            final(self).text() == old(self).text(),
            final(self).at() == old(self).at() + ws_run(old(self).text(), old(self).at()),
            final(self).at() == final(self).text().len() || !is_ws_char(
                final(self).text()[final(self).at()],
            ),
    {
        while self.pos < self.len && self.input.get_char(self.pos).is_whitespace()
            invariant
                self.wf(),
                self.text() == old(self).text(),
                old(self).at() <= self.at(),
                old(self).at() + ws_run(self.text(), old(self).at()) == self.at() + ws_run(
                    self.text(),
                    self.at(),
                ),
            decreases self.len - self.pos,
        {
            self.pos = self.pos + 1;
        }
    }

    /// Reads the symbol run at the current position.
    pub fn read_symbol(&mut self) -> (sym: String)
        requires
            old(self).wf(),
        ensures
            final(self).wf(),
            final(self).text() == old(self).text(),
            final(self).at() == old(self).at() + sym_run(old(self).text(), old(self).at()),
            sym@ == old(self).text().subrange(old(self).at(), final(self).at()),
    {
        let start = self.pos;
        while self.pos < self.len && symbol_char(self.input.get_char(self.pos))
            invariant
                self.wf(),
                self.text() == old(self).text(),
                start <= self.pos,
                start as int + sym_run(self.text(), start as int) == self.at() + sym_run(
                    self.text(),
                    self.at(),
                ),
            decreases self.len - self.pos,
        {
            self.pos = self.pos + 1;
        }
        let piece = self.input.substring_char(start, self.pos);
        String::from_str(piece)
    }

    /// Reads the number run (digits and dots) at the current position.
    pub fn read_number(&mut self) -> (num: String)
        requires
            old(self).wf(),
        ensures
            final(self).wf(),
            final(self).text() == old(self).text(),
            final(self).at() == old(self).at() + num_run(old(self).text(), old(self).at()),
            num@ == old(self).text().subrange(old(self).at(), final(self).at()),
    {
        let start = self.pos;
        while self.pos < self.len && number_char(self.input.get_char(self.pos))
            invariant
                self.wf(),
                self.text() == old(self).text(),
                start <= self.pos,
                start as int + num_run(self.text(), start as int) == self.at() + num_run(
                    self.text(),
                    self.at(),
                ),
            decreases self.len - self.pos,
        {
            self.pos = self.pos + 1;
        }
        let piece = self.input.substring_char(start, self.pos);
        String::from_str(piece)
    }

    /// Reads a string literal: skips the opening quote, copies characters
    /// verbatim up to the next quote (or to the end of input), and consumes
    /// the closing quote when there is one.
    pub fn read_string(&mut self) -> (text: String)
        requires
            old(self).wf(),
            old(self).at() < old(self).text().len(),
        ensures
            final(self).wf(),
            final(self).text() == old(self).text(),
            text@ == old(self).text().subrange(
                old(self).at() + 1,
                old(self).at() + 1 + str_run(old(self).text(), old(self).at() + 1),
            ),
            final(self).at() == {
                let close = old(self).at() + 1 + str_run(old(self).text(), old(self).at() + 1);
                if close < old(self).text().len() {
                    close + 1
                } else {
                    close
                }
            },
    {
        self.advance();  // skip the opening quote
        let start = self.pos;
        while self.pos < self.len && self.input.get_char(self.pos) != '"'
            invariant
                self.wf(),
                self.text() == old(self).text(),
                start <= self.pos,
                start as int + str_run(self.text(), start as int) == self.at() + str_run(
                    self.text(),
                    self.at(),
                ),
            decreases self.len - self.pos,
        {
            self.pos = self.pos + 1;
        }
        let piece = self.input.substring_char(start, self.pos);
        let text = String::from_str(piece);
        self.advance();  // skip the closing quote, if any
        text
    }

    /// Produces the next token, `None` at (or upon a silent) end of input, or
    /// the hard error a malformed number raises.
    fn next_token(&mut self) -> (r: Result<Option<Token>, LexError>)
        requires
            old(self).wf(),
        ensures
            final(self).wf(),
            final(self).text() == old(self).text(),
            match r {
                Ok(Some(tok)) => old(self).at() < final(self).at() <= final(self).text().len()
                    && lex_from(old(self).text(), old(self).at()) == cons_token(
                    tok@,
                    lex_from(final(self).text(), final(self).at()),
                ),
                Ok(None) => lex_from(old(self).text(), old(self).at()) == Ok::<
                    Seq<TokenV>,
                    LexError,
                >(Seq::empty()),
                Err(e) => lex_from(old(self).text(), old(self).at()) == Err::<
                    Seq<TokenV>,
                    LexError,
                >(e),
            },
    {
        let ghost s = old(self).text();
        let ghost p0 = old(self).at();
        self.eat_whitespace();
        proof {
            lemma_lex_skip_ws(s, p0);
        }
        let cur = self.current();
        match cur {
            None => Ok(None),
            Some(c) => {
                if c == '(' {
                    self.advance();
                    Ok(Some(Token::LParen))
                } else if c == ')' {
                    self.advance();
                    Ok(Some(Token::RParen))
                } else if c == '"' {
                    let text = self.read_string();
                    Ok(Some(Token::String(text)))
                } else if digit_char(c) {
                    let ghost p = self.at();
                    let numtext = self.read_number();
                    let dots = count_dots(&numtext);
                    if dots > 1 {
                        Err(LexError::TooManyDots)
                    } else if dots == 1 {
                        proof {
                            lemma_num_run_chars(s, p);
                            assert forall|k: int| 0 <= k < numtext@.len() implies is_digit_char(
                                #[trigger] numtext@[k],
                            ) || numtext@[k] == '.' by {
                                assert(numtext@[k] == s[p + k]);
                                assert(is_number_char(s[p + k]));
                            }
                            assert(numtext@[0] == s[p]);
                        }
                        let bits = parse_float_bits(numtext.as_str());
                        Ok(Some(Token::Float(bits)))
                    } else {
                        proof {
                            lemma_num_run_chars(s, p);
                            lemma_dot_count_zero(numtext@);
                            assert forall|k: int| 0 <= k < numtext@.len() implies is_digit_char(
                                #[trigger] numtext@[k],
                            ) by {
                                assert(numtext@[k] == s[p + k]);
                                assert(is_number_char(s[p + k]));
                            }
                        }
                        match parse_digits(&numtext) {
                            Ok(v) => Ok(Some(Token::Integer(v))),
                            Err(e) => Err(e),
                        }
                    }
                } else if op_char(c) {
                    let text = op_text(c);
                    self.advance();
                    Ok(Some(Token::BinaryOp(text)))
                } else if c.is_alphabetic() || c == '_' {
                    let symtext = self.read_symbol();
                    if is_keyword_str(symtext.as_str()) {
                        Ok(Some(Token::Keyword(symtext)))
                    } else {
                        Ok(Some(Token::Symbol(symtext)))
                    }
                } else {
                    Ok(None)
                }
            },
        }
    }
}

fn digit_char(c: char) -> (r: bool)
    ensures
        r == is_digit_char(c),
{
    let u = c as u32;
    48 <= u && u <= 57
}

/// Counts the '.' characters of a finished number run.
fn count_dots(s: &String) -> (n: usize)
    ensures
        n == dot_count(s@),
{
    let text = s.as_str();
    let len = text.unicode_len();
    let mut n: usize = 0;
    let mut k: usize = 0;
    while k < len
        invariant
            k <= len,
            len == text@.len(),
            text@ == s@,
            n <= k,
            n == dot_count(s@.subrange(0, k as int)),
        decreases len - k,
    {
        let c = text.get_char(k);
        proof {
            assert(s@.subrange(0, k + 1).drop_last() =~= s@.subrange(0, k as int));
            assert(s@.subrange(0, k + 1).last() == s@[k as int]);
        }
        if c == '.' {
            n = n + 1;
        }
        k = k + 1;
    }
    proof {
        assert(s@.subrange(0, len as int) =~= s@);
    }
    n
}

/// Parses a run of decimal digits as a 64-bit signed integer.
fn parse_digits(s: &String) -> (r: Result<i64, LexError>)
    requires
        forall|k: int| 0 <= k < s@.len() ==> is_digit_char(#[trigger] s@[k]),
    ensures
        match r {
            Ok(v) => digits_value(s@) <= i64::MAX && v == digits_value(s@),
            Err(e) => e == LexError::IntegerOverflow && digits_value(s@) > i64::MAX,
        },
{
    let text = s.as_str();
    let len = text.unicode_len();
    let mut acc: u64 = 0;
    let mut k: usize = 0;
    while k < len
        invariant
            k <= len,
            len == text@.len(),
            text@ == s@,
            forall|j: int| 0 <= j < s@.len() ==> is_digit_char(#[trigger] s@[j]),
            acc == digits_value(s@.subrange(0, k as int)),
            acc <= i64::MAX,
        decreases len - k,
    {
        let c = text.get_char(k);
        let d: u64 = (c as u32 - 48) as u64;
        proof {
            assert(s@.subrange(0, k + 1).drop_last() =~= s@.subrange(0, k as int));
            assert(s@.subrange(0, k + 1).last() == s@[k as int]);
            assert(d == digit_of(s@[k as int]));
        }
        let stepped = match acc.checked_mul(10) {
            Some(m) => m.checked_add(d),
            None => None,
        };
        match stepped {
            Some(v) => {
                if v > i64::MAX as u64 {
                    proof {
                        lemma_digits_value_prefix_le(s@, k + 1);
                    }
                    return Err(LexError::IntegerOverflow);
                }
                acc = v;
            },
            None => {
                proof {
                    lemma_digits_value_prefix_le(s@, k + 1);
                }
                return Err(LexError::IntegerOverflow);
            },
        }
        k = k + 1;
    }
    proof {
        assert(s@.subrange(0, len as int) =~= s@);
    }
    Ok(acc as i64)
}

proof fn lemma_prepend_nil(x: Result<Seq<TokenV>, LexError>)
    ensures
        prepend_tokens(Seq::empty(), x) == x,
{
    match x {
        Ok(ts) => {
            assert(Seq::empty() + ts =~= ts);
        },
        Err(_) => {},
    }
}

proof fn lemma_prepend_cons(ts: Seq<TokenV>, t: TokenV, x: Result<Seq<TokenV>, LexError>)
    ensures
        prepend_tokens(ts.push(t), x) == prepend_tokens(ts, cons_token(t, x)),
{
    match x {
        Ok(more) => {
            assert(ts.push(t) + more =~= ts + (seq![t] + more));
        },
        Err(_) => {},
    }
}

/// Produces the finite ordered token sequence of a source string, re-derived
/// from scratch, or the hard error met first.
pub fn tokenize(input: &str) -> (r: Result<Vec<Token>, LexError>)
    ensures
        match r {
            Ok(toks) => lex_from(input@, 0) == Ok::<Seq<TokenV>, LexError>(token_views(toks@)),
            Err(e) => lex_from(input@, 0) == Err::<Seq<TokenV>, LexError>(e),
        },
{
    let mut tk = Tokenizer::new(input);
    let mut tokens: Vec<Token> = Vec::new();
    proof {
        lemma_prepend_nil(lex_from(input@, 0));
        assert(token_views(tokens@) =~= Seq::empty());
    }
    loop
        invariant
            tk.wf(),
            tk.text() == input@,
            0 <= tk.at() <= input@.len(),
            lex_from(input@, 0) == prepend_tokens(token_views(tokens@), lex_from(input@, tk.at())),
        decreases input@.len() - tk.at(),
    {
        let ghost p = tk.at();
        match tk.next_token() {
            Err(e) => {
                return Err(e);
            },
            Ok(None) => {
                proof {
                    assert(token_views(tokens@) + Seq::empty() =~= token_views(tokens@));
                }
                return Ok(tokens);
            },
            Ok(Some(tok)) => {
                proof {
                    lemma_prepend_cons(token_views(tokens@), tok@, lex_from(input@, tk.at()));
                    assert(token_views(tokens@.push(tok)) =~= token_views(tokens@).push(tok@));
                }
                tokens.push(tok);
            },
        }
    }
}

} // verus!
