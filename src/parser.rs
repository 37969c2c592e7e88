use vstd::prelude::*;

use std::ops::Range;

use vstd::string::StringSliceAdditionalSpecFns;
use vstd::utf8::valid_utf8;

use crate::error::ParserError;
use crate::lexer::{span_in, span_of, utf8_str, Token};

verus! {

broadcast use vstd::std_specs::vec::group_vec_axioms;

/// A JSON value whose strings and numbers are slices of the input buffer.
/// An object keeps its entries in the order they were read.
#[derive(Debug)]
pub enum Value<'a> {
    Object(Vec<(&'a str, Value<'a>)>),
    Array(Vec<Value<'a>>),
    String(&'a str),
    Number(&'a str),
    Boolean(bool),
    Null,
}

impl<'a> Clone for Value<'a> {
    fn clone(&self) -> (r: Value<'a>)
        decreases self,
    {
        match self {
            Value::Object(m) => {
                let mut out: Vec<(&'a str, Value<'a>)> = Vec::new();
                let mut i: usize = 0;
                while i < m.len()
                    invariant
                        i <= m@.len(),
                        *self == Value::Object(*m),
                    decreases m@.len() - i,
                {
                    proof {
                        assert(decreases_to!(*self => self->Object_0));
                        assert(decreases_to!(*m => m[i as int]));
                        assert(decreases_to!(m[i as int] => m[i as int].1));
                    }
                    out.push((m[i].0, m[i].1.clone()));
                    i = i + 1;
                }
                Value::Object(out)
            },
            Value::Array(a) => {
                let mut out: Vec<Value<'a>> = Vec::new();
                let mut i: usize = 0;
                while i < a.len()
                    invariant
                        i <= a@.len(),
                        *self == Value::Array(*a),
                    decreases a@.len() - i,
                {
                    proof {
                        assert(decreases_to!(*self => self->Array_0));
                        assert(decreases_to!(*a => a[i as int]));
                    }
                    out.push(a[i].clone());
                    i = i + 1;
                }
                Value::Array(out)
            },
            Value::String(s) => Value::String(s),
            Value::Number(s) => Value::Number(s),
            Value::Boolean(b) => Value::Boolean(*b),
            Value::Null => Value::Null,
        }
    }
}

/// No two entries of an object share a key.
pub open spec fn keys_distinct(m: Seq<(&str, Value)>) -> bool {
    forall|i: int, j: int|
        0 <= i < j < m.len() ==> (#[trigger] m[i]).0.spec_bytes() != (#[trigger] m[j]).0.spec_bytes()
}

/// Every object inside `v`, and `v` itself, has distinct keys.
pub open spec fn value_wf(v: Value) -> bool
    decreases v,
{
    match v {
        Value::Object(m) => keys_distinct(m@) && forall|i: int|
            0 <= i < m@.len() ==> value_wf(#[trigger] m@[i].1),
        Value::Array(a) => forall|i: int| 0 <= i < a@.len() ==> value_wf(#[trigger] a@[i]),
        _ => true,
    }
}

/// Every string and number token of `toks` names a range of `input`.
pub open spec fn spans_in(input: Seq<u8>, toks: Seq<Token>) -> bool {
    forall|i: int|
        0 <= i < toks.len() ==> match #[trigger] toks[i] {
            Token::String(r) => span_in(input, r),
            Token::Number(r) => span_in(input, r),
            _ => true,
        }
}

fn bytes_eq(a: &[u8], b: &[u8]) -> (r: bool)
    ensures
        r == (a@ == b@),
{
    if a.len() != b.len() {
        return false;
    }
    let mut i: usize = 0;
    while i < a.len()
        invariant
            a@.len() == b@.len(),
            i <= a@.len(),
            forall|k: int| 0 <= k < i ==> a@[k] == b@[k],
        decreases a@.len() - i,
    {
        if a[i] != b[i] {
            return false;
        }
        i = i + 1;
    }
    assert(a@ =~= b@);
    true
}

fn contains_key(m: &Vec<(&str, Value)>, key: &str) -> (r: bool)
    ensures
        r == exists|i: int| 0 <= i < m@.len() && (#[trigger] m@[i]).0.spec_bytes() == key.spec_bytes(),
{
    let kb = key.as_bytes();
    let mut i: usize = 0;
    while i < m.len()
        invariant
            i <= m@.len(),
            kb@ == key.spec_bytes(),
            forall|k: int| 0 <= k < i ==> (#[trigger] m@[k]).0.spec_bytes() != key.spec_bytes(),
        decreases m@.len() - i,
    {
        if bytes_eq(m[i].0.as_bytes(), kb) {
            return true;
        }
        i = i + 1;
    }
    false
}

/// What parsing a value that starts with token `t` gives, where `t` decides
/// it alone: a scalar, or `InvalidValue` for a token that starts no value.
pub open spec fn scalar_outcome(input: Seq<u8>, t: Token, r: Result<Value, ParserError>) -> bool {
    match t {
        Token::String(g) => if valid_utf8(span_of(input, g)) {
            r matches Ok(Value::String(s)) && s.spec_bytes() == span_of(input, g)
        } else {
            r matches Err(ParserError::NonUTF8String)
        },
        Token::Number(g) => if valid_utf8(span_of(input, g)) {
            r matches Ok(Value::Number(s)) && s.spec_bytes() == span_of(input, g)
        } else {
            r matches Err(ParserError::NonUTF8String)
        },
        Token::True => r matches Ok(Value::Boolean(b)) && b,
        Token::False => r matches Ok(Value::Boolean(b)) && !b,
        Token::Null => r matches Ok(Value::Null),
        Token::Lcurl => r matches Ok(Value::Object(_)) || r is Err,
        Token::Lsquare => r matches Ok(Value::Array(_)) || r is Err,
        _ => r == Err::<Value, ParserError>(ParserError::InvalidValue { found: t }),
    }
}

/// The shape of a value: objects as their entries in order, with keys and
/// scalar payloads as the bytes of their spans.
pub enum Shape {
    Object(Seq<(Seq<u8>, Shape)>),
    Array(Seq<Shape>),
    Str(Seq<u8>),
    Num(Seq<u8>),
    Boolean(bool),
    Null,
}

/// Value `v` has shape `s`.
pub open spec fn has_shape(v: Value, s: Shape) -> bool
    decreases v,
{
    match v {
        Value::Object(m) => s matches Shape::Object(es) && m@.len() == es.len() && forall|i: int|
            0 <= i < m@.len() ==> (#[trigger] m@[i]).0.spec_bytes() == es[i].0 && has_shape(
                m@[i].1,
                es[i].1,
            ),
        Value::Array(a) => s matches Shape::Array(xs) && a@.len() == xs.len() && forall|i: int|
            0 <= i < a@.len() ==> has_shape(#[trigger] a@[i], xs[i]),
        Value::String(t) => s == Shape::Str(t.spec_bytes()),
        Value::Number(t) => s == Shape::Num(t.spec_bytes()),
        Value::Boolean(b) => s == Shape::Boolean(b),
        Value::Null => s == Shape::Null,
    }
}

pub open spec fn has_key(es: Seq<(Seq<u8>, Shape)>, k: Seq<u8>) -> bool {
    exists|i: int| 0 <= i < es.len() && (#[trigger] es[i]).0 == k
}

/// Parses the value at token `p`: its shape and the index of the token after
/// it, or the first structural error.
pub open spec fn parse_at(input: Seq<u8>, toks: Seq<Token>, p: int) -> Result<
    (Shape, int),
    ParserError,
>
    decreases toks.len() - p, 1int,
{
    if p < 0 || p >= toks.len() {
        Err(ParserError::UnexpectedEof)
    } else {
        match toks[p] {
            Token::Lcurl => object_from(input, toks, p + 1, Seq::empty()),
            Token::Lsquare => if p + 1 < toks.len() && toks[p + 1] is Rsquare {
                Ok((Shape::Array(Seq::empty()), p + 2))
            } else {
                array_from(input, toks, p + 1, Seq::empty())
            },
            Token::String(g) => if valid_utf8(span_of(input, g)) {
                Ok((Shape::Str(span_of(input, g)), p + 1))
            } else {
                Err(ParserError::NonUTF8String)
            },
            Token::Number(g) => if valid_utf8(span_of(input, g)) {
                Ok((Shape::Num(span_of(input, g)), p + 1))
            } else {
                Err(ParserError::NonUTF8String)
            },
            Token::True => Ok((Shape::Boolean(true), p + 1)),
            Token::False => Ok((Shape::Boolean(false), p + 1)),
            Token::Null => Ok((Shape::Null, p + 1)),
            _ => Err(ParserError::InvalidValue { found: toks[p] }),
        }
    }
}

/// Continues an object at token `p`, after the entries `acc`.
pub open spec fn object_from(
    input: Seq<u8>,
    toks: Seq<Token>,
    p: int,
    acc: Seq<(Seq<u8>, Shape)>,
) -> Result<(Shape, int), ParserError>
    decreases toks.len() - p, 0int,
{
    if p < 0 || p >= toks.len() {
        Err(ParserError::UnexpectedEof)
    } else if toks[p] is Rcurl {
        Ok((Shape::Object(acc), p + 1))
    } else if !(toks[p] is String) {
        Err(ParserError::InvalidKey)
    } else if !valid_utf8(span_of(input, toks[p]->String_0)) {
        Err(ParserError::NonUTF8String)
    } else if has_key(acc, span_of(input, toks[p]->String_0)) {
        Err(ParserError::DuplicateKey)
    } else if !(p + 1 < toks.len() && toks[p + 1] is Colon) {
        Err(ParserError::MissingColon)
    } else {
        let key = span_of(input, toks[p]->String_0);
        match parse_at(input, toks, p + 2) {
            Err(e) => Err(e),
            Ok((v, q)) => if q <= p {
                Err(ParserError::UnexpectedEof)
            } else if q >= toks.len() {
                Err(ParserError::UnexpectedEof)
            } else if toks[q] is Comma {
                if q + 1 < toks.len() && toks[q + 1] is Rcurl {
                    Err(ParserError::TrailingComma)
                } else {
                    object_from(input, toks, q + 1, acc.push((key, v)))
                }
            } else if toks[q] is Rcurl {
                Ok((Shape::Object(acc.push((key, v))), q + 1))
            } else {
                Err(ParserError::InvalidValue { found: toks[q] })
            },
        }
    }
}

/// Continues an array at token `p`, after the items `acc`.
pub open spec fn array_from(input: Seq<u8>, toks: Seq<Token>, p: int, acc: Seq<Shape>) -> Result<
    (Shape, int),
    ParserError,
>
    decreases toks.len() - p, 2int,
{
    if p < 0 || p >= toks.len() {
        Err(ParserError::UnexpectedEof)
    } else {
        match parse_at(input, toks, p) {
            Err(e) => Err(e),
            Ok((v, q)) => if q <= p {
                Err(ParserError::UnexpectedEof)
            } else if q >= toks.len() {
                Err(ParserError::UnexpectedEof)
            } else if toks[q] is Comma {
                array_from(input, toks, q + 1, acc.push(v))
            } else if toks[q] is Rsquare {
                Ok((Shape::Array(acc.push(v)), q + 1))
            } else {
                Err(ParserError::InvalidArray)
            },
        }
    }
}

/// A recursive-descent reader of one value from a token sequence.
pub struct Parser<'a> {
    input: &'a [u8],
    tokens: Vec<Token>,
    pos: usize,
}

impl<'a> Parser<'a> {
    pub closed spec fn tokens(&self) -> Seq<Token> {
        self.tokens@
    }

    pub closed spec fn input(&self) -> Seq<u8> {
        self.input@
    }

    pub closed spec fn pos(&self) -> int {
        self.pos as int
    }

    pub closed spec fn wf(&self) -> bool {
        self.tokens@.len() < usize::MAX && self.pos <= self.tokens@.len() && spans_in(
            self.input@,
            self.tokens@,
        )
    }

    pub fn new(tokens: Vec<Token>, input: &'a [u8]) -> (r: Self)
        requires
            tokens@.len() < usize::MAX,
            spans_in(input@, tokens@),
        ensures
            r.wf(),
            r.tokens() == tokens@,
            r.input() == input@,
            r.pos() == 0,
    {
        Parser { input, tokens, pos: 0 }
    }

    /// Reads one value starting at the current token. Gives nothing when no
    /// token is left; tokens after the value are left unread.
    pub fn parse(&mut self) -> (r: Option<Result<Value<'a>, ParserError>>)
        requires
            old(self).wf(),
        ensures
            final(self).wf(),
            final(self).tokens() == old(self).tokens(),
            final(self).input() == old(self).input(),
            r is None <==> old(self).pos() >= old(self).tokens().len(),
            r matches Some(Ok(v)) ==> value_wf(v),
            old(self).pos() < old(self).tokens().len() ==> (r matches Some(res) && ({
                match parse_at(old(self).input(), old(self).tokens(), old(self).pos()) {
                    Ok((sh, q)) => res matches Ok(v) && has_shape(v, sh),
                    Err(e) => res == Err::<Value<'a>, ParserError>(e),
                }
            })),
            old(self).pos() < old(self).tokens().len() ==> (r matches Some(res) && scalar_outcome(
                old(self).input(),
                old(self).tokens()[old(self).pos()],
                res,
            )),
            old(self).pos() + 1 < old(self).tokens().len() && old(self).tokens()[old(self).pos()]
                is Lcurl && old(self).tokens()[old(self).pos() + 1] is Rcurl ==> (r matches Some(
                Ok(Value::Object(m)),
            ) && m@.len() == 0),
            old(self).pos() + 1 < old(self).tokens().len() && old(self).tokens()[old(self).pos()]
                is Lsquare && old(self).tokens()[old(self).pos() + 1] is Rsquare ==> (r matches Some(
                Ok(Value::Array(a)),
            ) && a@.len() == 0),
    {
        if self.curr().is_none() {
            return None;
        }
        Some(self.parse_value())
    }

    fn parse_object(&mut self) -> (r: Result<Value<'a>, ParserError>)
        requires
            old(self).wf(),
            old(self).pos < old(self).tokens@.len(),
            old(self).tokens@[old(self).pos as int] is Lcurl,
        ensures
            final(self).wf(),
            final(self).tokens == old(self).tokens,
            final(self).input == old(self).input,
            old(self).pos < final(self).pos,
            r matches Ok(v) ==> value_wf(v) && v is Object,
            old(self).pos + 1 < old(self).tokens@.len() && old(self).tokens@[old(self).pos + 1]
                is Rcurl ==> (r matches Ok(Value::Object(m)) && m@.len() == 0),
            ({
                match parse_at(old(self).input@, old(self).tokens@, old(self).pos as int) {
                    Ok((sh, q)) => r matches Ok(v) && has_shape(v, sh) && final(self).pos == q,
                    Err(e) => r == Err::<Value<'a>, ParserError>(e),
                }
            }),
        decreases old(self).tokens@.len() - old(self).pos, 0int,
    {
        let mut entries: Vec<(&'a str, Value<'a>)> = Vec::new();
        let ghost mut acc: Seq<(Seq<u8>, Shape)> = Seq::empty();
        self.pos = self.pos + 1;
        while self.pos < self.tokens.len()
            invariant
                self.wf(),
                self.tokens == old(self).tokens,
                self.input == old(self).input,
                old(self).pos < self.pos,
                keys_distinct(entries@),
                forall|i: int| 0 <= i < entries@.len() ==> value_wf(#[trigger] entries@[i].1),
                self.pos == old(self).pos + 1 ==> entries@.len() == 0,
                old(self).pos + 1 < old(self).tokens@.len() && old(self).tokens@[old(self).pos + 1]
                    is Rcurl ==> self.pos == old(self).pos + 1,
                entries@.len() == acc.len(),
                forall|i: int|
                    0 <= i < entries@.len() ==> (#[trigger] entries@[i]).0.spec_bytes() == acc[i].0
                        && has_shape(entries@[i].1, acc[i].1),
                object_from(self.input@, self.tokens@, self.pos as int, acc) == object_from(
                    self.input@,
                    self.tokens@,
                    old(self).pos + 1,
                    Seq::empty(),
                ),
                parse_at(self.input@, self.tokens@, old(self).pos as int) == object_from(
                    self.input@,
                    self.tokens@,
                    old(self).pos + 1,
                    Seq::empty(),
                ),
            decreases self.tokens@.len() - self.pos,
        {
            let token = &self.tokens[self.pos];
            if matches!(token, Token::Rcurl) {
                self.pos = self.pos + 1;
                return Ok(Value::Object(entries));
            }
            let range = match token {
                Token::String(g) => Range { start: g.start, end: g.end },
                _ => {
                    return Err(ParserError::InvalidKey);
                },
            };
            let key = match Self::read_str(self.input, &range) {
                Ok(k) => k,
                Err(e) => {
                    return Err(e);
                },
            };
            proof {
                if has_key(acc, key.spec_bytes()) {
                    let i = choose|i: int| 0 <= i < acc.len() && (#[trigger] acc[i]).0 == key.spec_bytes();
                    assert(entries@[i].0.spec_bytes() == key.spec_bytes());
                }
                if exists|i: int|
                    0 <= i < entries@.len() && (#[trigger] entries@[i]).0.spec_bytes()
                        == key.spec_bytes() {
                    let i = choose|i: int|
                        0 <= i < entries@.len() && (#[trigger] entries@[i]).0.spec_bytes()
                            == key.spec_bytes();
                    assert(acc[i].0 == key.spec_bytes());
                }
            }
            if contains_key(&entries, key) {
                return Err(ParserError::DuplicateKey);
            }
            self.pos = self.pos + 1;
            if !(self.pos < self.tokens.len() && matches!(self.tokens[self.pos], Token::Colon)) {
                return Err(ParserError::MissingColon);
            }
            self.pos = self.pos + 1;
            let ghost vp = self.pos as int;
            let value = match self.parse_value() {
                Ok(v) => v,
                Err(e) => {
                    return Err(e);
                },
            };
            let ghost value_shape = parse_at(self.input@, self.tokens@, vp)->Ok_0.0;
            entries.push((key, value));
            proof {
                acc = acc.push((key.spec_bytes(), value_shape));
            }
            if self.pos >= self.tokens.len() {
                return Err(ParserError::UnexpectedEof);
            }
            let after = &self.tokens[self.pos];
            if matches!(after, Token::Comma) {
                if self.pos + 1 < self.tokens.len() && matches!(
                    self.tokens[self.pos + 1],
                    Token::Rcurl
                ) {
                    return Err(ParserError::TrailingComma);
                }
                self.pos = self.pos + 1;
            } else if matches!(after, Token::Rcurl) {
                self.pos = self.pos + 1;
                return Ok(Value::Object(entries));
            } else {
                return Err(ParserError::InvalidValue { found: after.clone() });
            }
        }
        Err(ParserError::UnexpectedEof)
    }

    fn parse_array(&mut self) -> (r: Result<Value<'a>, ParserError>)
        requires
            old(self).wf(),
            old(self).pos < old(self).tokens@.len(),
            old(self).tokens@[old(self).pos as int] is Lsquare,
        ensures
            final(self).wf(),
            final(self).tokens == old(self).tokens,
            final(self).input == old(self).input,
            old(self).pos < final(self).pos,
            r matches Ok(v) ==> value_wf(v) && v is Array,
            old(self).pos + 1 < old(self).tokens@.len() && old(self).tokens@[old(self).pos + 1]
                is Rsquare ==> (r matches Ok(Value::Array(a)) && a@.len() == 0),
            ({
                match parse_at(old(self).input@, old(self).tokens@, old(self).pos as int) {
                    Ok((sh, q)) => r matches Ok(v) && has_shape(v, sh) && final(self).pos == q,
                    Err(e) => r == Err::<Value<'a>, ParserError>(e),
                }
            }),
        decreases old(self).tokens@.len() - old(self).pos, 0int,
    {
        let mut items: Vec<Value<'a>> = Vec::new();
        let ghost mut acc: Seq<Shape> = Seq::empty();
        self.pos = self.pos + 1;
        if self.pos < self.tokens.len() && matches!(self.tokens[self.pos], Token::Rsquare) {
            self.pos = self.pos + 1;
            return Ok(Value::Array(items));
        }
        while self.pos < self.tokens.len()
            invariant
                self.wf(),
                self.tokens == old(self).tokens,
                self.input == old(self).input,
                old(self).pos < self.pos,
                forall|i: int| 0 <= i < items@.len() ==> value_wf(#[trigger] items@[i]),
                old(self).pos + 1 < old(self).tokens@.len() ==> !(old(self).tokens@[old(self).pos
                    + 1] is Rsquare),
                items@.len() == acc.len(),
                forall|i: int| 0 <= i < items@.len() ==> has_shape(#[trigger] items@[i], acc[i]),
                array_from(self.input@, self.tokens@, self.pos as int, acc) == array_from(
                    self.input@,
                    self.tokens@,
                    old(self).pos + 1,
                    Seq::empty(),
                ),
                parse_at(self.input@, self.tokens@, old(self).pos as int) == array_from(
                    self.input@,
                    self.tokens@,
                    old(self).pos + 1,
                    Seq::empty(),
                ),
            decreases self.tokens@.len() - self.pos,
        {
            let ghost vp = self.pos as int;
            let value = match self.parse_value() {
                Ok(v) => v,
                Err(e) => {
                    return Err(e);
                },
            };
            let ghost value_shape = parse_at(self.input@, self.tokens@, vp)->Ok_0.0;
            items.push(value);
            proof {
                acc = acc.push(value_shape);
            }
            if self.pos >= self.tokens.len() {
                return Err(ParserError::UnexpectedEof);
            }
            if matches!(self.tokens[self.pos], Token::Comma) {
                self.pos = self.pos + 1;
            } else if matches!(self.tokens[self.pos], Token::Rsquare) {
                self.pos = self.pos + 1;
                return Ok(Value::Array(items));
            } else {
                return Err(ParserError::InvalidArray);
            }
        }
        Err(ParserError::UnexpectedEof)
    }

    fn curr(&self) -> (r: Option<&Token>)
        requires
            self.wf(),
        ensures
            r == (if self.pos < self.tokens@.len() {
                Some(&self.tokens@[self.pos as int])
            } else {
                None::<&Token>
            }),
    {
        if self.pos < self.tokens.len() {
            Some(&self.tokens[self.pos])
        } else {
            None
        }
    }

    /// Parses the value that starts at the current token.
    fn parse_value(&mut self) -> (r: Result<Value<'a>, ParserError>)
        requires
            old(self).wf(),
        ensures
            final(self).wf(),
            final(self).tokens == old(self).tokens,
            final(self).input == old(self).input,
            old(self).pos <= final(self).pos,
            r matches Ok(v) ==> value_wf(v) && old(self).pos < final(self).pos,
            old(self).pos >= old(self).tokens@.len() ==> r == Err::<Value<'a>, ParserError>(
                ParserError::UnexpectedEof,
            ),
            old(self).pos < old(self).tokens@.len() ==> scalar_outcome(
                old(self).input@,
                old(self).tokens@[old(self).pos as int],
                r,
            ),
            old(self).pos + 1 < old(self).tokens@.len() && old(self).tokens@[old(self).pos as int]
                is Lcurl && old(self).tokens@[old(self).pos + 1] is Rcurl ==> (r matches Ok(
                Value::Object(m),
            ) && m@.len() == 0),
            old(self).pos + 1 < old(self).tokens@.len() && old(self).tokens@[old(self).pos as int]
                is Lsquare && old(self).tokens@[old(self).pos + 1] is Rsquare ==> (r matches Ok(
                Value::Array(a),
            ) && a@.len() == 0),
            ({
                match parse_at(old(self).input@, old(self).tokens@, old(self).pos as int) {
                    Ok((sh, q)) => r matches Ok(v) && has_shape(v, sh) && final(self).pos == q,
                    Err(e) => r == Err::<Value<'a>, ParserError>(e),
                }
            }),
        decreases old(self).tokens@.len() - old(self).pos, 1int,
    {
        if self.pos >= self.tokens.len() {
            return Err(ParserError::UnexpectedEof);
        }
        let token = &self.tokens[self.pos];
        match token {
            Token::Lcurl => self.parse_object(),
            Token::Lsquare => self.parse_array(),
            Token::String(range) => {
                let range = Range { start: range.start, end: range.end };
                match Self::read_str(self.input, &range) {
                    Ok(s) => {
                        self.pos = self.pos + 1;
                        Ok(Value::String(s))
                    },
                    Err(e) => Err(e),
                }
            },
            Token::Number(range) => {
                let range = Range { start: range.start, end: range.end };
                match Self::read_str(self.input, &range) {
                    Ok(s) => {
                        self.pos = self.pos + 1;
                        Ok(Value::Number(s))
                    },
                    Err(e) => Err(e),
                }
            },
            Token::True => {
                self.pos = self.pos + 1;
                Ok(Value::Boolean(true))
            },
            Token::False => {
                self.pos = self.pos + 1;
                Ok(Value::Boolean(false))
            },
            Token::Null => {
                self.pos = self.pos + 1;
                Ok(Value::Null)
            },
            _ => Err(ParserError::InvalidValue { found: token.clone() }),
        }
    }

    fn read_str(input: &'a [u8], range: &Range<usize>) -> (r: Result<&'a str, ParserError>)
        requires
            span_in(input@, *range),
        ensures
            r is Ok <==> valid_utf8(span_of(input@, *range)),
            r matches Ok(s) ==> s.spec_bytes() == span_of(input@, *range),
            r matches Err(e) ==> e is NonUTF8String,
    {
        match utf8_str(vstd::slice::slice_subrange(input, range.start, range.end)) {
            Some(s) => Ok(s),
            None => Err(ParserError::NonUTF8String),
        }
    }
}

} // verus!
