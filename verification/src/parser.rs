//! The parser: recursive descent over the token sequence, producing exactly
//! one root syntax tree.
//!
//! The grammar is `List := '(' item* ')'` with `item := atom | List`.  The
//! model is the pair of spec functions [`parse_list_at`] and [`parse_items`]:
//! a parse must open with `(`, every nested list must close, and the single
//! top-level list is returned as soon as its `)` is met (tokens after it are
//! ignored).  Parsing never yields a partial tree: it returns the whole root
//! or an error.

use vstd::prelude::*;

use crate::lexer::{lex_from, lex_message, token_views, tokenize, LexError, Token, TokenV};

verus! {

/// A value of the object model, used both as a syntax-tree node and as a
/// runtime value.
#[derive(Debug, PartialEq)]
pub enum Object {
    Void,
    Keyword(String),
    BinaryOp(String),
    Integer(i64),
    /// An IEEE 754 binary64 bit pattern.
    Float(u64),
    Bool(bool),
    String(String),
    Symbol(String),
    /// A runtime data list: reserved for future list primitives, not yet
    /// producible by evaluation.
    ListData(Vec<Object>),
    /// Parameter names and body expressions, captured verbatim.
    Lambda(Vec<String>, Vec<Object>),
    /// A source form: an ordered sequence of sub-forms.
    List(Vec<Object>),
}

/// The mathematical model of an `Object`.
pub enum ObjV {
    Void,
    Keyword(Seq<char>),
    BinaryOp(Seq<char>),
    Integer(i64),
    Float(u64),
    Bool(bool),
    Str(Seq<char>),
    Symbol(Seq<char>),
    ListData(Seq<ObjV>),
    Lambda(Seq<Seq<char>>, Seq<ObjV>),
    List(Seq<ObjV>),
}

/// The model of an object: every string becomes a character sequence and
/// every vector a sequence.
pub open spec fn obj_view(o: Object) -> ObjV
    decreases o, 0int,
{
    match o {
        Object::Void => ObjV::Void,
        Object::Keyword(s) => ObjV::Keyword(s@),
        Object::BinaryOp(s) => ObjV::BinaryOp(s@),
        Object::Integer(i) => ObjV::Integer(i),
        Object::Float(b) => ObjV::Float(b),
        Object::Bool(b) => ObjV::Bool(b),
        Object::String(s) => ObjV::Str(s@),
        Object::Symbol(s) => ObjV::Symbol(s@),
        Object::ListData(v) => ObjV::ListData(obj_view_seq(v@)),
        Object::Lambda(ps, body) => ObjV::Lambda(str_views(ps@), obj_view_seq(body@)),
        Object::List(v) => ObjV::List(obj_view_seq(v@)),
    }
}

/// The models of a sequence of strings.
pub open spec fn str_views(ss: Seq<String>) -> Seq<Seq<char>> {
    Seq::new(ss.len(), |i: int| ss[i]@)
}

/// The models of a sequence of objects.
pub open spec fn obj_view_seq(v: Seq<Object>) -> Seq<ObjV>
    decreases v, 1int,
{
    if v.len() == 0 {
        Seq::empty()
    } else {
        seq![obj_view(v[0])] + obj_view_seq(v.subrange(1, v.len() as int))
    }
}

/// `obj_view_seq` is the element-wise model of a sequence of objects.
pub proof fn lemma_obj_view_seq(v: Seq<Object>)
    ensures
        obj_view_seq(v).len() == v.len(),
        forall|i: int| 0 <= i < v.len() ==> obj_view_seq(v)[i] == obj_view(#[trigger] v[i]),
    decreases v.len(),
{
    if v.len() > 0 {
        let tail = v.subrange(1, v.len() as int);
        lemma_obj_view_seq(tail);
        assert forall|i: int| 0 <= i < v.len() implies obj_view_seq(v)[i] == obj_view(
            #[trigger] v[i],
        ) by {
            if i > 0 {
                assert(obj_view_seq(v)[i] == obj_view_seq(tail)[i - 1]);
                assert(tail[i - 1] == v[i]);
            }
        }
    }
}

/// Appending one object appends its model.
pub proof fn lemma_obj_view_seq_push(os: Seq<Object>, o: Object)
    ensures
        obj_view_seq(os.push(o)) == obj_view_seq(os).push(obj_view(o)),
{
    lemma_obj_view_seq(os.push(o));
    lemma_obj_view_seq(os);
    assert forall|i: int| 0 <= i < os.len() + 1 implies obj_view_seq(os.push(o))[i]
        == obj_view_seq(os).push(obj_view(o))[i] by {
        if i < os.len() {
            assert(os.push(o)[i] == os[i]);
        } else {
            assert(os.push(o)[i] == o);
        }
    }
    assert(obj_view_seq(os.push(o)) =~= obj_view_seq(os).push(obj_view(o)));
}

impl View for Object {
    type V = ObjV;

    open spec fn view(&self) -> ObjV {
        obj_view(*self)
    }
}

impl Object {
    /// A deep copy with the same model.
    pub fn duplicate(&self) -> (r: Object)
        ensures
            r@ == self@,
        decreases *self, 0int,
    {
        match self {
            Object::Void => Object::Void,
            Object::Keyword(s) => Object::Keyword(s.clone()),
            Object::BinaryOp(s) => Object::BinaryOp(s.clone()),
            Object::Integer(i) => Object::Integer(*i),
            Object::Float(b) => Object::Float(*b),
            Object::Bool(b) => Object::Bool(*b),
            Object::String(s) => Object::String(s.clone()),
            Object::Symbol(s) => Object::Symbol(s.clone()),
            Object::ListData(v) => Object::ListData(duplicate_objects(v)),
            Object::Lambda(ps, body) => {
                let names = clone_strings(ps);
                let body2 = duplicate_objects(body);
                proof {
                    assert(str_views(names@) =~= str_views(ps@));
                }
                Object::Lambda(names, body2)
            },
            Object::List(v) => Object::List(duplicate_objects(v)),
        }
    }
}

/// A deep copy of a sequence of objects, element for element.
fn duplicate_objects(v: &Vec<Object>) -> (r: Vec<Object>)
    ensures
        obj_view_seq(r@) == obj_view_seq(v@),
    decreases *v, 1int,
{
    let mut out: Vec<Object> = Vec::new();
    let n = v.len();
    let mut k: usize = 0;
    while k < n
        invariant
            k <= n,
            n == v@.len(),
            out@.len() == k,
            forall|j: int| 0 <= j < k ==> (#[trigger] out@[j])@ == v@[j]@,
        decreases n - k,
    {
        proof {
            assert(decreases_to!(*v => v@));
            assert(decreases_to!(v@ => v@[k as int]));
        }
        let copy = v[k].duplicate();
        out.push(copy);
        k = k + 1;
    }
    proof {
        lemma_obj_view_seq(out@);
        lemma_obj_view_seq(v@);
        assert forall|j: int| 0 <= j < v@.len() implies obj_view_seq(out@)[j] == obj_view_seq(
            v@,
        )[j] by {
            assert(obj_view_seq(out@)[j] == obj_view(out@[j]));
            assert(obj_view_seq(v@)[j] == obj_view(v@[j]));
            assert(out@[j]@ == v@[j]@);
        }
        assert(obj_view_seq(out@) =~= obj_view_seq(v@));
    }
    out
}

/// A copy of a sequence of strings, element for element.
fn clone_strings(v: &Vec<String>) -> (r: Vec<String>)
    ensures
        r@.len() == v@.len(),
        forall|j: int| 0 <= j < v@.len() ==> (#[trigger] r@[j])@ == v@[j]@,
{
    let mut out: Vec<String> = Vec::new();
    let n = v.len();
    let mut k: usize = 0;
    while k < n
        invariant
            k <= n,
            n == v@.len(),
            out@.len() == k,
            forall|j: int| 0 <= j < k ==> (#[trigger] out@[j])@ == v@[j]@,
        decreases n - k,
    {
        out.push(v[k].clone());
        k = k + 1;
    }
    out
}

/// The character of one decimal digit value.
pub open spec fn digit_char_of(d: int) -> char {
    if d == 0 {
        '0'
    } else if d == 1 {
        '1'
    } else if d == 2 {
        '2'
    } else if d == 3 {
        '3'
    } else if d == 4 {
        '4'
    } else if d == 5 {
        '5'
    } else if d == 6 {
        '6'
    } else if d == 7 {
        '7'
    } else if d == 8 {
        '8'
    } else {
        '9'
    }
}

/// The decimal digits of a non-negative integer.
pub open spec fn nat_decimal(n: int) -> Seq<char>
    decreases n,
{
    if n < 10 {
        seq![digit_char_of(n)]
    } else {
        nat_decimal(n / 10).push(digit_char_of(n % 10))
    }
}

/// The decimal rendering of an integer, with a leading '-' when negative.
pub open spec fn int_decimal(i: int) -> Seq<char> {
    if i < 0 {
        "-"@ + nat_decimal(-i)
    } else {
        nat_decimal(i)
    }
}

/// Texts joined by single spaces.
pub open spec fn join_spaced(ss: Seq<Seq<char>>) -> Seq<char>
    decreases ss.len(),
{
    if ss.len() == 0 {
        Seq::empty()
    } else if ss.len() == 1 {
        ss[0]
    } else {
        ss[0] + seq![' '] + join_spaced(ss.subrange(1, ss.len() as int))
    }
}

/// The deterministic textual rendering of a value: atoms render as their
/// literal text, a list as its space-joined children in parentheses, and a
/// lambda as its parameter list followed by its body.
pub open spec fn render_obj(o: ObjV) -> Seq<char>
    decreases o, 0int,
{
    match o {
        ObjV::Void => "Void"@,
        ObjV::Keyword(s) => s,
        ObjV::BinaryOp(s) => s,
        ObjV::Integer(i) => int_decimal(i as int),
        ObjV::Float(b) => crate::fp::float_text_bits(b),
        ObjV::Bool(b) => if b {
            "true"@
        } else {
            "false"@
        },
        ObjV::Str(s) => s,
        ObjV::Symbol(s) => s,
        ObjV::Lambda(ps, body) => "Lambda("@ + join_spaced(ps) + ") "@ + render_items(body),
        ObjV::List(items) => "("@ + render_items(items) + ")"@,
        ObjV::ListData(items) => "("@ + render_items(items) + ")"@,
    }
}

/// The renderings of a sequence of values, joined by single spaces.
pub open spec fn render_items(os: Seq<ObjV>) -> Seq<char>
    decreases os, 1int,
{
    if os.len() == 0 {
        Seq::empty()
    } else if os.len() == 1 {
        render_obj(os[0])
    } else {
        render_obj(os[0]) + seq![' '] + render_items(os.subrange(1, os.len() as int))
    }
}

/// Why a parse failed.
#[derive(Debug, Clone, Copy, PartialEq, Eq)]
pub enum ParseErrKind {
    /// The tokenizer met a hard error.
    Lex(LexError),
    /// The input does not begin with '('.
    ExpectedOpen,
    /// The input ended inside an unterminated list.
    ExpectedClose,
}

/// The text of a parse failure's message.
pub open spec fn parse_message(k: ParseErrKind) -> Seq<char> {
    match k {
        ParseErrKind::Lex(e) => lex_message(e),
        ParseErrKind::ExpectedOpen => "Expected '(' at the beginning of list"@,
        ParseErrKind::ExpectedClose => "Expected ')' at the end of list"@,
    }
}

/// A fatal, non-recoverable parse failure.
#[derive(Debug, Clone, PartialEq, Eq)]
pub struct ParseError {
    kind: ParseErrKind,
}

impl View for ParseError {
    type V = ParseErrKind;

    closed spec fn view(&self) -> ParseErrKind {
        self.kind
    }
}

impl ParseError {
    pub(crate) fn new(kind: ParseErrKind) -> (e: ParseError)
        ensures
            e@ == kind,
    {
        ParseError { kind }
    }

    /// Which failure this is.
    pub fn kind(&self) -> (k: ParseErrKind)
        ensures
            k == self@,
    {
        self.kind
    }

    /// A descriptive message for the shell.
    pub fn message(&self) -> (m: String)
        ensures
            m@ == parse_message(self@),
    {
        match &self.kind {
            ParseErrKind::Lex(e) => e.message(),
            ParseErrKind::ExpectedOpen => "Expected '(' at the beginning of list".to_owned(),
            ParseErrKind::ExpectedClose => "Expected ')' at the end of list".to_owned(),
        }
    }
}

/// The model of one atom token as a syntax-tree leaf.
pub open spec fn atom_obj(t: TokenV) -> ObjV {
    match t {
        TokenV::Integer(i) => ObjV::Integer(i),
        TokenV::Float(b) => ObjV::Float(b),
        TokenV::Str(s) => ObjV::Str(s),
        TokenV::Symbol(s) => ObjV::Symbol(s),
        TokenV::BinaryOp(s) => ObjV::BinaryOp(s),
        TokenV::Keyword(s) => ObjV::Keyword(s),
        TokenV::LParen => ObjV::Void,
        TokenV::RParen => ObjV::Void,
    }
}

/// Parses one list whose '(' stands at `i`; yields the list and the index
/// just past its ')'.
pub open spec fn parse_list_at(ts: Seq<TokenV>, i: int) -> Result<(ObjV, int), ParseErrKind>
    decreases ts.len() - i, 0int,
    when 0 <= i <= ts.len()
{
    if i >= ts.len() || !(ts[i] is LParen) {
        Err(ParseErrKind::ExpectedOpen)
    } else {
        match parse_items(ts, i + 1) {
            Ok((items, j)) => Ok((ObjV::List(items), j)),
            Err(e) => Err(e),
        }
    }
}

/// Parses the items of an open list from `i` up to its ')'; yields the items
/// and the index just past the ')'.
pub open spec fn parse_items(ts: Seq<TokenV>, i: int) -> Result<(Seq<ObjV>, int), ParseErrKind>
    decreases ts.len() - i, 1int,
    when 0 <= i <= ts.len()
{
    if i >= ts.len() {
        Err(ParseErrKind::ExpectedClose)
    } else {
        match ts[i] {
            TokenV::RParen => Ok((Seq::empty(), i + 1)),
            TokenV::LParen => match parse_list_at(ts, i) {
                Ok((obj, j)) => {
                    // The recursive scan resumes past the nested list; the
                    // bounds below always hold of `j` (`lemma_parse_bounds`)
                    // and only serve the termination measure.
                    let j2 = if j < i + 1 {
                        i + 1
                    } else if j > ts.len() {
                        ts.len() as int
                    } else {
                        j
                    };
                    match parse_items(ts, j2) {
                        Ok((rest, k)) => Ok((seq![obj] + rest, k)),
                        Err(e) => Err(e),
                    }
                },
                Err(e) => Err(e),
            },
            _ => match parse_items(ts, i + 1) {
                Ok((rest, k)) => Ok((seq![atom_obj(ts[i])] + rest, k)),
                Err(e) => Err(e),
            },
        }
    }
}

/// A successful list parse always advances, never past the end.
pub proof fn lemma_parse_list_bounds(ts: Seq<TokenV>, i: int)
    requires
        0 <= i <= ts.len(),
    ensures
        parse_list_at(ts, i) matches Ok((o, j)) ==> i < j <= ts.len(),
    decreases ts.len() - i, 0int,
{
    if i < ts.len() && ts[i] is LParen {
        lemma_parse_items_bounds(ts, i + 1);
    }
}

/// A successful item scan always advances, never past the end.
pub proof fn lemma_parse_items_bounds(ts: Seq<TokenV>, i: int)
    requires
        0 <= i <= ts.len(),
    ensures
        parse_items(ts, i) matches Ok((os, j)) ==> i < j <= ts.len(),
    decreases ts.len() - i, 1int,
{
    if i < ts.len() {
        match ts[i] {
            TokenV::RParen => {},
            TokenV::LParen => {
                lemma_parse_list_bounds(ts, i);
                if let Ok((obj, j)) = parse_list_at(ts, i) {
                    let j2 = if j < i + 1 {
                        i + 1
                    } else if j > ts.len() {
                        ts.len() as int
                    } else {
                        j
                    };
                    lemma_parse_items_bounds(ts, j2);
                }
            },
            _ => {
                lemma_parse_items_bounds(ts, i + 1);
            },
        }
    }
}

/// The model of the whole pipeline from source text to one syntax tree.
pub open spec fn parse_program(s: Seq<char>) -> Result<ObjV, ParseErrKind> {
    match lex_from(s, 0) {
        Err(e) => Err(ParseErrKind::Lex(e)),
        Ok(ts) => match parse_list_at(ts, 0) {
            Ok((obj, j)) => Ok(obj),
            Err(e) => Err(e),
        },
    }
}

/// Prepends finished items to a scan of the remaining items.
pub open spec fn prepend_items(os: Seq<ObjV>, r: Result<(Seq<ObjV>, int), ParseErrKind>) -> Result<
    (Seq<ObjV>, int),
    ParseErrKind,
> {
    match r {
        Ok((rest, k)) => Ok((os + rest, k)),
        Err(e) => Err(e),
    }
}

proof fn lemma_prepend_items_nil(x: Result<(Seq<ObjV>, int), ParseErrKind>)
    ensures
        prepend_items(Seq::empty(), x) == x,
{
    match x {
        Ok((rest, k)) => {
            assert(Seq::empty() + rest =~= rest);
        },
        Err(_) => {},
    }
}

proof fn lemma_prepend_items_cons(
    os: Seq<ObjV>,
    o: ObjV,
    x: Result<(Seq<ObjV>, int), ParseErrKind>,
)
    ensures
        prepend_items(os.push(o), x) == prepend_items(
            os,
            match x {
                Ok((rest, k)) => Ok((seq![o] + rest, k)),
                Err(e) => Err(e),
            },
        ),
{
    match x {
        Ok((rest, k)) => {
            assert(os.push(o) + rest =~= os + (seq![o] + rest));
        },
        Err(_) => {},
    }
}

/// Parses the list opening at index `start`, returning the tree (or error)
/// and the index just past the list's closing ')'.
fn parse_list(tokens: &Vec<Token>, start: usize) -> (res: (Result<Object, ParseError>, usize))
    requires
        start <= tokens@.len(),
    ensures
        res.1 <= tokens@.len(),
        match res.0 {
            Ok(obj) => parse_list_at(token_views(tokens@), start as int) == Ok::<
                (ObjV, int),
                ParseErrKind,
            >((obj@, res.1 as int)) && start < res.1,
            Err(e) => parse_list_at(token_views(tokens@), start as int) == Err::<
                (ObjV, int),
                ParseErrKind,
            >(e@),
        },
    decreases tokens@.len() - start,
{
    let ghost ts = token_views(tokens@);
    proof {
        assert(ts.len() == tokens@.len());
    }
    if start >= tokens.len() {
        return (Err(ParseError::new(ParseErrKind::ExpectedOpen)), start);
    }
    proof {
        assert(ts[start as int] == tokens@[start as int]@);
    }
    let opens = match &tokens[start] {
        Token::LParen => true,
        _ => false,
    };
    if !opens {
        return (Err(ParseError::new(ParseErrKind::ExpectedOpen)), start);
    }
    let mut items: Vec<Object> = Vec::new();
    let mut i: usize = start + 1;
    proof {
        lemma_prepend_items_nil(parse_items(ts, i as int));
        assert(obj_view_seq(items@) =~= Seq::empty());
    }
    loop
        invariant
            start + 1 <= i <= tokens@.len(),
            ts == token_views(tokens@),
            ts.len() == tokens@.len(),
            ts[start as int] is LParen,
            parse_items(ts, start + 1) == prepend_items(obj_view_seq(items@), parse_items(ts, i as int)),
        decreases tokens@.len() - i,
    {
        if i >= tokens.len() {
            return (Err(ParseError::new(ParseErrKind::ExpectedClose)), i);
        }
        let ghost items0 = items@;
        let ghost i0 = i as int;
        let tok = &tokens[i];
        proof {
            assert(ts[i0] == tokens@[i0]@);
        }
        match tok {
            Token::RParen => {
                proof {
                    assert(obj_view_seq(items@) + Seq::empty() =~= obj_view_seq(items@));
                }
                return (Ok(Object::List(items)), i + 1);
            },
            Token::LParen => {
                let (sub, j) = parse_list(tokens, i);
                match sub {
                    Ok(obj) => {
                        proof {
                            lemma_prepend_items_cons(
                                obj_view_seq(items@),
                                obj@,
                                parse_items(ts, j as int),
                            );
                            lemma_obj_view_seq_push(items@, obj);
                        }
                        items.push(obj);
                        i = j;
                    },
                    Err(e) => {
                        return (Err(e), j);
                    },
                }
            },
            Token::Integer(n) => {
                proof {
                    lemma_prepend_items_cons(
                        obj_view_seq(items@),
                        atom_obj(ts[i0]),
                        parse_items(ts, i0 + 1),
                    );
                    lemma_obj_view_seq_push(items@, Object::Integer(*n));
                }
                items.push(Object::Integer(*n));
                i = i + 1;
            },
            Token::Float(b) => {
                proof {
                    lemma_prepend_items_cons(
                        obj_view_seq(items@),
                        atom_obj(ts[i0]),
                        parse_items(ts, i0 + 1),
                    );
                    lemma_obj_view_seq_push(items@, Object::Float(*b));
                }
                items.push(Object::Float(*b));
                i = i + 1;
            },
            Token::String(s) => {
                let copy = s.clone();
                proof {
                    lemma_prepend_items_cons(
                        obj_view_seq(items@),
                        atom_obj(ts[i0]),
                        parse_items(ts, i0 + 1),
                    );
                    lemma_obj_view_seq_push(items@, Object::String(copy));
                }
                items.push(Object::String(copy));
                i = i + 1;
            },
            Token::Symbol(s) => {
                let copy = s.clone();
                proof {
                    lemma_prepend_items_cons(
                        obj_view_seq(items@),
                        atom_obj(ts[i0]),
                        parse_items(ts, i0 + 1),
                    );
                    lemma_obj_view_seq_push(items@, Object::Symbol(copy));
                }
                items.push(Object::Symbol(copy));
                i = i + 1;
            },
            Token::BinaryOp(s) => {
                let copy = s.clone();
                proof {
                    lemma_prepend_items_cons(
                        obj_view_seq(items@),
                        atom_obj(ts[i0]),
                        parse_items(ts, i0 + 1),
                    );
                    lemma_obj_view_seq_push(items@, Object::BinaryOp(copy));
                }
                items.push(Object::BinaryOp(copy));
                i = i + 1;
            },
            Token::Keyword(s) => {
                let copy = s.clone();
                proof {
                    lemma_prepend_items_cons(
                        obj_view_seq(items@),
                        atom_obj(ts[i0]),
                        parse_items(ts, i0 + 1),
                    );
                    lemma_obj_view_seq_push(items@, Object::Keyword(copy));
                }
                items.push(Object::Keyword(copy));
                i = i + 1;
            },
        }
    }
}

/// The one-character text of a decimal digit value.
fn digit_text(d: u64) -> (s: &'static str)
    requires
        d < 10,
    ensures
        s@ == seq![digit_char_of(d as int)],
{
    if d == 0 {
        proof {
            reveal_strlit("0");
            assert("0"@ =~= seq![digit_char_of(0)]);
        }
        "0"
    } else if d == 1 {
        proof {
            reveal_strlit("1");
            assert("1"@ =~= seq![digit_char_of(1)]);
        }
        "1"
    } else if d == 2 {
        proof {
            reveal_strlit("2");
            assert("2"@ =~= seq![digit_char_of(2)]);
        }
        "2"
    } else if d == 3 {
        proof {
            reveal_strlit("3");
            assert("3"@ =~= seq![digit_char_of(3)]);
        }
        "3"
    } else if d == 4 {
        proof {
            reveal_strlit("4");
            assert("4"@ =~= seq![digit_char_of(4)]);
        }
        "4"
    } else if d == 5 {
        proof {
            reveal_strlit("5");
            assert("5"@ =~= seq![digit_char_of(5)]);
        }
        "5"
    } else if d == 6 {
        proof {
            reveal_strlit("6");
            assert("6"@ =~= seq![digit_char_of(6)]);
        }
        "6"
    } else if d == 7 {
        proof {
            reveal_strlit("7");
            assert("7"@ =~= seq![digit_char_of(7)]);
        }
        "7"
    } else if d == 8 {
        proof {
            reveal_strlit("8");
            assert("8"@ =~= seq![digit_char_of(8)]);
        }
        "8"
    } else {
        proof {
            reveal_strlit("9");
            assert("9"@ =~= seq![digit_char_of(9)]);
        }
        "9"
    }
}

/// The decimal digits of a non-negative integer.
fn nat_text(n: u64) -> (r: String)
    ensures
        r@ == nat_decimal(n as int),
    decreases n,
{
    if n < 10 {
        String::from_str(digit_text(n))
    } else {
        let mut s = nat_text(n / 10);
        s.append(digit_text(n % 10));
        s
    }
}

/// The decimal rendering of an integer.
fn int_text(i: i64) -> (r: String)
    ensures
        r@ == int_decimal(i as int),
{
    if i >= 0 {
        nat_text(i as u64)
    } else {
        let m = (-(i as i128)) as u64;
        let mut s = String::from_str("-");
        let digits = nat_text(m);
        s.append(digits.as_str());
        s
    }
}

/// The names of a parameter list from position `k` on, joined by spaces.
fn names_text_from(v: &Vec<String>, k: usize) -> (r: String)
    requires
        k <= v@.len(),
    ensures
        r@ == join_spaced(str_views(v@).subrange(k as int, v@.len() as int)),
    decreases v@.len() - k,
{
    let ghost sv = str_views(v@);
    if k >= v.len() {
        proof {
            assert(sv.subrange(k as int, v@.len() as int) =~= Seq::<Seq<char>>::empty());
        }
        String::new()
    } else if k == v.len() - 1 {
        proof {
            assert(sv.subrange(k as int, v@.len() as int) =~= seq![v@[k as int]@]);
        }
        v[k].clone()
    } else {
        let mut s = v[k].clone();
        s.append(" ");
        let rest = names_text_from(v, k + 1);
        s.append(rest.as_str());
        proof {
            reveal_strlit(" ");
            let cur = sv.subrange(k as int, v@.len() as int);
            assert(cur[0] == v@[k as int]@);
            assert(cur.subrange(1, cur.len() as int) =~= sv.subrange(
                k + 1,
                v@.len() as int,
            ));
            assert(s@ =~= cur[0] + seq![' '] + join_spaced(cur.subrange(1, cur.len() as int)));
        }
        s
    }
}

/// The renderings of the items from position `k` on, joined by spaces.
fn items_text_from(v: &Vec<Object>, k: usize) -> (r: String)
    requires
        k <= v@.len(),
    ensures
        r@ == render_items(obj_view_seq(v@).subrange(k as int, v@.len() as int)),
    decreases *v, 1int, v@.len() - k,
{
    let ghost ov = obj_view_seq(v@);
    proof {
        lemma_obj_view_seq(v@);
    }
    if k >= v.len() {
        proof {
            assert(ov.subrange(k as int, v@.len() as int) =~= Seq::<ObjV>::empty());
        }
        String::new()
    } else if k == v.len() - 1 {
        proof {
            assert(decreases_to!(*v => v@));
            assert(decreases_to!(v@ => v@[k as int]));
            assert(ov.subrange(k as int, v@.len() as int) =~= seq![ov[k as int]]);
        }
        v[k].to_text()
    } else {
        proof {
            assert(decreases_to!(*v => v@));
            assert(decreases_to!(v@ => v@[k as int]));
        }
        let mut s = v[k].to_text();
        s.append(" ");
        let rest = items_text_from(v, k + 1);
        s.append(rest.as_str());
        proof {
            reveal_strlit(" ");
            let cur = ov.subrange(k as int, v@.len() as int);
            assert(cur[0] == ov[k as int]);
            assert(cur.subrange(1, cur.len() as int) =~= ov.subrange(k + 1, v@.len() as int));
            assert(s@ =~= render_obj(cur[0]) + seq![' '] + render_items(
                cur.subrange(1, cur.len() as int),
            ));
        }
        s
    }
}

impl Object {
    /// The deterministic textual rendering of this value, for diagnostic
    /// and interactive use.
    pub fn to_text(&self) -> (r: String)
        ensures
            r@ == render_obj(self@),
        decreases *self, 0int, 0int,
    {
        match self {
            Object::Void => String::from_str("Void"),
            Object::Keyword(s) => s.clone(),
            Object::BinaryOp(s) => s.clone(),
            Object::Integer(i) => int_text(*i),
            Object::Float(b) => crate::fp::render_float_bits(*b),
            Object::Bool(b) => if *b {
                String::from_str("true")
            } else {
                String::from_str("false")
            },
            Object::String(s) => s.clone(),
            Object::Symbol(s) => s.clone(),
            Object::Lambda(ps, body) => {
                let mut s = String::from_str("Lambda(");
                let names = names_text_from(ps, 0);
                s.append(names.as_str());
                s.append(") ");
                let items = items_text_from(body, 0);
                s.append(items.as_str());
                proof {
                    lemma_obj_view_seq(body@);
                    assert(str_views(ps@).subrange(0, ps@.len() as int) =~= str_views(ps@));
                    assert(obj_view_seq(body@).subrange(0, body@.len() as int) =~= obj_view_seq(
                        body@,
                    ));
                }
                s
            },
            Object::List(v) => {
                let mut s = String::from_str("(");
                let items = items_text_from(v, 0);
                s.append(items.as_str());
                s.append(")");
                proof {
                    lemma_obj_view_seq(v@);
                    assert(obj_view_seq(v@).subrange(0, v@.len() as int) =~= obj_view_seq(v@));
                }
                s
            },
            Object::ListData(v) => {
                let mut s = String::from_str("(");
                let items = items_text_from(v, 0);
                s.append(items.as_str());
                s.append(")");
                proof {
                    lemma_obj_view_seq(v@);
                    assert(obj_view_seq(v@).subrange(0, v@.len() as int) =~= obj_view_seq(v@));
                }
                s
            },
        }
    }
}

/// Re-tokenizes and parses a source string from scratch into exactly one
/// root syntax tree; fatal on input that does not begin with '(', on an
/// unterminated list, and on any tokenizer failure.
pub fn parse(program: &str) -> (r: Result<Object, ParseError>)
    ensures
        match r {
            Ok(obj) => parse_program(program@) == Ok::<ObjV, ParseErrKind>(obj@),
            Err(e) => parse_program(program@) == Err::<ObjV, ParseErrKind>(e@),
        },
{
    let tokens = match tokenize(program) {
        Ok(ts) => ts,
        Err(e) => {
            return Err(ParseError::new(ParseErrKind::Lex(e)));
        },
    };
    let (res, _next) = parse_list(&tokens, 0);
    res
}

} // verus!
