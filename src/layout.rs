use vstd::prelude::*;

use vstd::utf8::valid_utf8;

use crate::error::ParserError;
use crate::lexer::{
    alpha_end, is_alpha, is_digit, is_exp_marker, is_ws, lex_from, next_step, number_ok, number_text_scans, span_in, span_of, string_body_ok,
    string_text_scans, ws_end, Lexed, Step, Token,
};
use crate::parser::{array_from, has_key, object_from, parse_at, Shape};

verus! {

/// A token with its payload bytes in place of a span.
pub enum Lexeme {
    Colon,
    Comma,
    Lcurl,
    Rcurl,
    Lsquare,
    Rsquare,
    Str(Seq<u8>),
    Num(Seq<u8>),
    True,
    False,
    Null,
}

/// The lexemes of a value written out in full: objects and arrays between
/// their brackets, entries and items separated by commas.
pub open spec fn lexemes(sh: Shape) -> Seq<Lexeme>
    decreases sh, 0int,
{
    match sh {
        Shape::Object(es) => seq![Lexeme::Lcurl] + entry_lexemes(es, 0),
        Shape::Array(xs) => seq![Lexeme::Lsquare] + item_lexemes(xs, 0),
        Shape::Str(b) => seq![Lexeme::Str(b)],
        Shape::Num(b) => seq![Lexeme::Num(b)],
        Shape::Boolean(b) => if b {
            seq![Lexeme::True]
        } else {
            seq![Lexeme::False]
        },
        Shape::Null => seq![Lexeme::Null],
    }
}

/// The lexemes of the entries of an object from the `i`-th on, and its closing brace.
pub open spec fn entry_lexemes(es: Seq<(Seq<u8>, Shape)>, i: int) -> Seq<Lexeme>
    decreases es, es.len() - i,
{
    if i < 0 || i >= es.len() {
        seq![Lexeme::Rcurl]
    } else {
        seq![Lexeme::Str(es[i].0), Lexeme::Colon] + lexemes(es[i].1) + (if i + 1 < es.len() {
            seq![Lexeme::Comma]
        } else {
            Seq::empty()
        }) + entry_lexemes(es, i + 1)
    }
}

/// The lexemes of the items of an array from the `i`-th on, and its closing bracket.
pub open spec fn item_lexemes(xs: Seq<Shape>, i: int) -> Seq<Lexeme>
    decreases xs, xs.len() - i,
{
    if i < 0 || i >= xs.len() {
        seq![Lexeme::Rsquare]
    } else {
        lexemes(xs[i]) + (if i + 1 < xs.len() {
            seq![Lexeme::Comma]
        } else {
            Seq::empty()
        }) + item_lexemes(xs, i + 1)
    }
}

/// A shape that a JSON text can have: keys distinct within each object, and
/// keys and payloads valid UTF-8.
pub open spec fn shape_ok(sh: Shape) -> bool
    decreases sh, 0int,
{
    match sh {
        Shape::Object(es) => entries_ok(es, 0),
        Shape::Array(xs) => items_ok(xs, 0),
        Shape::Str(b) => valid_utf8(b),
        Shape::Num(b) => valid_utf8(b),
        _ => true,
    }
}

/// The entries of an object from the `i`-th on have valid keys, each key
/// unlike those before it, and well-formed values.
pub open spec fn entries_ok(es: Seq<(Seq<u8>, Shape)>, i: int) -> bool
    decreases es, es.len() - i,
{
    if i < 0 || i >= es.len() {
        true
    } else {
        valid_utf8(es[i].0) && !has_key(es.take(i), es[i].0) && shape_ok(es[i].1) && entries_ok(
            es,
            i + 1,
        )
    }
}

/// The items of an array from the `i`-th on are well formed.
pub open spec fn items_ok(xs: Seq<Shape>, i: int) -> bool
    decreases xs, xs.len() - i,
{
    if i < 0 || i >= xs.len() {
        true
    } else {
        shape_ok(xs[i]) && items_ok(xs, i + 1)
    }
}

/// Token `t` of a buffer `input` is lexeme `l`.
pub open spec fn reads_as(input: Seq<u8>, t: Token, l: Lexeme) -> bool {
    match l {
        Lexeme::Colon => t is Colon,
        Lexeme::Comma => t is Comma,
        Lexeme::Lcurl => t is Lcurl,
        Lexeme::Rcurl => t is Rcurl,
        Lexeme::Lsquare => t is Lsquare,
        Lexeme::Rsquare => t is Rsquare,
        Lexeme::Str(b) => t matches Token::String(g) && span_in(input, g) && span_of(input, g) == b,
        Lexeme::Num(b) => t matches Token::Number(g) && span_in(input, g) && span_of(input, g) == b,
        Lexeme::True => t is True,
        Lexeme::False => t is False,
        Lexeme::Null => t is Null,
    }
}

/// The tokens from index `p` on begin with lexemes `ls`.
pub open spec fn reads_at(input: Seq<u8>, toks: Seq<Token>, p: int, ls: Seq<Lexeme>) -> bool {
    0 <= p && p + ls.len() <= toks.len() && forall|j: int|
        0 <= j < ls.len() ==> reads_as(input, toks[p + j], #[trigger] ls[j])
}

proof fn lemma_reads_split(input: Seq<u8>, toks: Seq<Token>, p: int, a: Seq<Lexeme>, b: Seq<Lexeme>)
    requires
        reads_at(input, toks, p, a + b),
    ensures
        reads_at(input, toks, p, a),
        reads_at(input, toks, p + a.len(), b),
{
    assert forall|j: int| 0 <= j < a.len() implies reads_as(input, toks[p + j], #[trigger] a[j]) by {
        assert((a + b)[j] == a[j]);
    }
    assert forall|j: int| 0 <= j < b.len() implies reads_as(
        input,
        toks[p + a.len() + j],
        #[trigger] b[j],
    ) by {
        assert((a + b)[a.len() + j] == b[j]);
    }
}

proof fn lemma_first_lexeme(sh: Shape)
    ensures
        lexemes(sh).len() >= 1,
        !(lexemes(sh)[0] is Rsquare),
        !(lexemes(sh)[0] is Rcurl),
{
}

/// Every string and number payload is valid UTF-8.
pub open spec fn payloads_utf8(ls: Seq<Lexeme>) -> bool {
    forall|i: int|
        0 <= i < ls.len() ==> match #[trigger] ls[i] {
            Lexeme::Str(b) => valid_utf8(b),
            Lexeme::Num(b) => valid_utf8(b),
            _ => true,
        }
}

proof fn lemma_utf8_split(a: Seq<Lexeme>, b: Seq<Lexeme>)
    requires
        payloads_utf8(a + b),
    ensures
        payloads_utf8(a),
        payloads_utf8(b),
{
    assert forall|j: int| 0 <= j < a.len() implies match #[trigger] a[j] {
        Lexeme::Str(x) => valid_utf8(x),
        Lexeme::Num(x) => valid_utf8(x),
        _ => true,
    } by {
        assert((a + b)[j] == a[j]);
    }
    assert forall|j: int| 0 <= j < b.len() implies match #[trigger] b[j] {
        Lexeme::Str(x) => valid_utf8(x),
        Lexeme::Num(x) => valid_utf8(x),
        _ => true,
    } by {
        assert((a + b)[a.len() + j] == b[j]);
    }
}

/// Tokens laid out as a value with valid UTF-8 payloads parse to exactly
/// that value, stopping right after its last token, whatever follows, when
/// no object in it repeats a key; otherwise, wherever the repeated key
/// stands and whatever the values, parsing fails with `DuplicateKey`.
pub proof fn parse_reads_layout(input: Seq<u8>, toks: Seq<Token>, p: int, sh: Shape)
    requires
        payloads_utf8(lexemes(sh)),
        reads_at(input, toks, p, lexemes(sh)),
    ensures
        parse_at(input, toks, p) == if shape_ok(sh) {
            Ok::<(Shape, int), ParserError>((sh, p + lexemes(sh).len()))
        } else {
            Err::<(Shape, int), ParserError>(ParserError::DuplicateKey)
        },
    decreases sh, 0int,
{
    assert(reads_as(input, toks[p + 0], lexemes(sh)[0]));
    match sh {
        Shape::Object(es) => {
            lemma_reads_split(input, toks, p, seq![Lexeme::Lcurl], entry_lexemes(es, 0));
            lemma_utf8_split(seq![Lexeme::Lcurl], entry_lexemes(es, 0));
            lemma_entries(input, toks, p + 1, es, 0);
            assert(es.take(0) =~= Seq::<(Seq<u8>, Shape)>::empty());
        },
        Shape::Array(xs) => {
            lemma_reads_split(input, toks, p, seq![Lexeme::Lsquare], item_lexemes(xs, 0));
            lemma_utf8_split(seq![Lexeme::Lsquare], item_lexemes(xs, 0));
            if xs.len() == 0 {
                assert(reads_as(input, toks[p + 1 + 0], item_lexemes(xs, 0)[0]));
                assert(xs =~= Seq::<Shape>::empty());
            } else {
                let sep = if 1 < xs.len() {
                    seq![Lexeme::Comma]
                } else {
                    Seq::<Lexeme>::empty()
                };
                assert(item_lexemes(xs, 0) == lexemes(xs[0]) + sep + item_lexemes(xs, 1));
                lemma_reads_split(input, toks, p + 1, lexemes(xs[0]) + sep, item_lexemes(xs, 1));
                lemma_reads_split(input, toks, p + 1, lexemes(xs[0]), sep);
                lemma_first_lexeme(xs[0]);
                assert(reads_as(input, toks[p + 1 + 0], lexemes(xs[0])[0]));
                lemma_items(input, toks, p + 1, xs, 0);
                assert(xs.take(0) =~= Seq::<Shape>::empty());
            }
        },
        Shape::Str(b) => {
            assert(lexemes(sh)[0] == Lexeme::Str(b));
        },
        Shape::Num(b) => {
            assert(lexemes(sh)[0] == Lexeme::Num(b));
        },
        _ => {},
    }
}

proof fn lemma_entries(input: Seq<u8>, toks: Seq<Token>, q: int, es: Seq<(Seq<u8>, Shape)>, i: int)
    requires
        0 <= i <= es.len(),
        payloads_utf8(entry_lexemes(es, i)),
        reads_at(input, toks, q, entry_lexemes(es, i)),
    ensures
        object_from(input, toks, q, es.take(i)) == if entries_ok(es, i) {
            Ok::<(Shape, int), ParserError>((Shape::Object(es), q + entry_lexemes(es, i).len()))
        } else {
            Err::<(Shape, int), ParserError>(ParserError::DuplicateKey)
        },
    decreases es, es.len() - i,
{
    assert(reads_as(input, toks[q + 0], entry_lexemes(es, i)[0]));
    if i == es.len() {
        assert(es.take(i) =~= es);
    } else {
        let k = es[i].0;
        let v = es[i].1;
        let head = seq![Lexeme::Str(k), Lexeme::Colon];
        let sep = if i + 1 < es.len() {
            seq![Lexeme::Comma]
        } else {
            Seq::<Lexeme>::empty()
        };
        assert(entry_lexemes(es, i) == head + lexemes(v) + sep + entry_lexemes(es, i + 1));
        lemma_reads_split(input, toks, q, head + lexemes(v) + sep, entry_lexemes(es, i + 1));
        lemma_reads_split(input, toks, q, head + lexemes(v), sep);
        lemma_reads_split(input, toks, q, head, lexemes(v));
        lemma_utf8_split(head + lexemes(v) + sep, entry_lexemes(es, i + 1));
        lemma_utf8_split(head + lexemes(v), sep);
        lemma_utf8_split(head, lexemes(v));
        assert(head[0] == Lexeme::Str(k));
        assert(valid_utf8(k));
        assert(reads_as(input, toks[q + 0], head[0]));
        assert(reads_as(input, toks[q + 1], head[1]));
        let acc = es.take(i);
        if !has_key(acc, k) {
            parse_reads_layout(input, toks, q + 2, v);
            if shape_ok(v) {
                let q2 = q + 2 + lexemes(v).len();
                assert(acc.push((k, v)) =~= es.take(i + 1));
                if i + 1 < es.len() {
                    assert(reads_as(input, toks[q2 + 0], sep[0]));
                    lemma_entry_lexemes_separated(es, i + 1);
                    assert(reads_as(input, toks[q2 + 1 + 0], entry_lexemes(es, i + 1)[0]));
                    lemma_entries(input, toks, q2 + 1, es, i + 1);
                } else {
                    assert(reads_as(input, toks[q2 + 0], entry_lexemes(es, i + 1)[0]));
                    assert(es.take(i + 1) =~= es);
                    assert(entries_ok(es, i + 1));
                }
            }
        }
    }
}

proof fn lemma_items(input: Seq<u8>, toks: Seq<Token>, q: int, xs: Seq<Shape>, i: int)
    requires
        0 <= i < xs.len(),
        payloads_utf8(item_lexemes(xs, i)),
        reads_at(input, toks, q, item_lexemes(xs, i)),
    ensures
        array_from(input, toks, q, xs.take(i)) == if items_ok(xs, i) {
            Ok::<(Shape, int), ParserError>((Shape::Array(xs), q + item_lexemes(xs, i).len()))
        } else {
            Err::<(Shape, int), ParserError>(ParserError::DuplicateKey)
        },
    decreases xs, xs.len() - i,
{
    let x = xs[i];
    let sep = if i + 1 < xs.len() {
        seq![Lexeme::Comma]
    } else {
        Seq::<Lexeme>::empty()
    };
    assert(item_lexemes(xs, i) == lexemes(x) + sep + item_lexemes(xs, i + 1));
    lemma_reads_split(input, toks, q, lexemes(x) + sep, item_lexemes(xs, i + 1));
    lemma_reads_split(input, toks, q, lexemes(x), sep);
    lemma_utf8_split(lexemes(x) + sep, item_lexemes(xs, i + 1));
    lemma_utf8_split(lexemes(x), sep);
    parse_reads_layout(input, toks, q, x);
    if shape_ok(x) {
        let q2 = q + lexemes(x).len();
        assert(xs.take(i).push(x) =~= xs.take(i + 1));
        if i + 1 < xs.len() {
            assert(reads_as(input, toks[q2 + 0], sep[0]));
            lemma_items(input, toks, q2 + 1, xs, i + 1);
        } else {
            assert(reads_as(input, toks[q2 + 0], item_lexemes(xs, i + 1)[0]));
            assert(xs.take(i + 1) =~= xs);
            assert(items_ok(xs, i + 1));
        }
    }
}

/// The bytes that spell lexeme `l`.
pub open spec fn lexeme_text(l: Lexeme) -> Seq<u8> {
    match l {
        Lexeme::Colon => seq![0x3au8],
        Lexeme::Comma => seq![0x2cu8],
        Lexeme::Lcurl => seq![0x7bu8],
        Lexeme::Rcurl => seq![0x7du8],
        Lexeme::Lsquare => seq![0x5bu8],
        Lexeme::Rsquare => seq![0x5du8],
        Lexeme::Str(b) => seq![0x22u8] + b + seq![0x22u8],
        Lexeme::Num(b) => b,
        Lexeme::True => seq![0x74u8, 0x72u8, 0x75u8, 0x65u8],
        Lexeme::False => seq![0x66u8, 0x61u8, 0x6cu8, 0x73u8, 0x65u8],
        Lexeme::Null => seq![0x6eu8, 0x75u8, 0x6cu8, 0x6cu8],
    }
}

/// The lexemes `ls` spelled one after another, with the whitespace run
/// `gaps[i]` before the `i`-th and the last run after them all.
pub open spec fn text_of(ls: Seq<Lexeme>, gaps: Seq<Seq<u8>>) -> Seq<u8>
    decreases ls.len(),
{
    if ls.len() == 0 {
        gaps[0]
    } else {
        gaps[0] + lexeme_text(ls[0]) + text_of(ls.drop_first(), gaps.drop_first())
    }
}

/// One whitespace run around each lexeme, each made of whitespace bytes only.
pub open spec fn gaps_ok(ls: Seq<Lexeme>, gaps: Seq<Seq<u8>>) -> bool {
    &&& gaps.len() == ls.len() + 1
    &&& forall|i: int, j: int| 0 <= i < gaps.len() && 0 <= j < gaps[i].len() ==> is_ws(#[trigger] gaps[i][j])
}

/// The token that reads lexeme `l` spelled at offset `p`.
pub open spec fn token_at(l: Lexeme, p: int) -> Token {
    match l {
        Lexeme::Colon => Token::Colon,
        Lexeme::Comma => Token::Comma,
        Lexeme::Lcurl => Token::Lcurl,
        Lexeme::Rcurl => Token::Rcurl,
        Lexeme::Lsquare => Token::Lsquare,
        Lexeme::Rsquare => Token::Rsquare,
        Lexeme::Str(b) => Token::String(
            std::ops::Range { start: (p + 1) as usize, end: (p + 1 + b.len()) as usize },
        ),
        Lexeme::Num(b) => Token::Number(
            std::ops::Range { start: p as usize, end: (p + b.len()) as usize },
        ),
        Lexeme::True => Token::True,
        Lexeme::False => Token::False,
        Lexeme::Null => Token::Null,
    }
}

/// The tokens that read lexemes `ls`, spelled with whitespace `gaps` from offset `p`.
pub open spec fn tokens_at(ls: Seq<Lexeme>, gaps: Seq<Seq<u8>>, p: int) -> Seq<Token>
    decreases ls.len(),
{
    if ls.len() == 0 {
        Seq::empty()
    } else {
        seq![token_at(ls[0], p + gaps[0].len())] + tokens_at(
            ls.drop_first(),
            gaps.drop_first(),
            p + gaps[0].len() + lexeme_text(ls[0]).len(),
        )
    }
}

/// String payloads are well-formed string content and number payloads well-formed numbers.
pub open spec fn payloads_ok(ls: Seq<Lexeme>) -> bool {
    forall|i: int|
        0 <= i < ls.len() ==> match #[trigger] ls[i] {
            Lexeme::Str(b) => string_body_ok(b),
            Lexeme::Num(b) => number_ok(b),
            _ => true,
        }
}

/// A lexeme whose text ends in a byte that could run on into the next one.
pub open spec fn ends_bare(l: Lexeme) -> bool {
    l is Num || l is True || l is False || l is Null
}

pub open spec fn closes(l: Lexeme) -> bool {
    l is Comma || l is Rcurl || l is Rsquare
}

/// Each number or keyword is followed by a comma or a closing bracket, or ends the sequence.
pub open spec fn separated(ls: Seq<Lexeme>) -> bool {
    forall|i: int| 0 <= i < ls.len() - 1 && ends_bare(#[trigger] ls[i]) ==> closes(ls[i + 1])
}

proof fn lemma_separated_concat(a: Seq<Lexeme>, b: Seq<Lexeme>)
    requires
        separated(a),
        separated(b),
        a.len() > 0 && b.len() > 0 && ends_bare(a[a.len() - 1]) ==> closes(b[0]),
    ensures
        separated(a + b),
{
    let c = a + b;
    assert forall|i: int| 0 <= i < c.len() - 1 && ends_bare(#[trigger] c[i]) implies closes(
        c[i + 1],
    ) by {
        if i < a.len() - 1 {
            assert(c[i] == a[i] && c[i + 1] == a[i + 1]);
        } else if i == a.len() - 1 {
            assert(c[i] == a[i] && c[i + 1] == b[0]);
        } else {
            assert(c[i] == b[i - a.len()] && c[i + 1] == b[i + 1 - a.len()]);
        }
    }
}

proof fn lemma_lexemes_separated(sh: Shape)
    ensures
        separated(lexemes(sh)),
        lexemes(sh).len() >= 1,
    decreases sh, 0int,
{
    match sh {
        Shape::Object(es) => {
            lemma_entry_lexemes_separated(es, 0);
            lemma_separated_concat(seq![Lexeme::Lcurl], entry_lexemes(es, 0));
        },
        Shape::Array(xs) => {
            lemma_item_lexemes_separated(xs, 0);
            lemma_separated_concat(seq![Lexeme::Lsquare], item_lexemes(xs, 0));
        },
        _ => {},
    }
}

proof fn lemma_entry_lexemes_separated(es: Seq<(Seq<u8>, Shape)>, i: int)
    requires
        0 <= i,
    ensures
        separated(entry_lexemes(es, i)),
        entry_lexemes(es, i).len() >= 1,
        entry_lexemes(es, i)[0] is Str || entry_lexemes(es, i)[0] is Rcurl,
    decreases es, es.len() - i,
{
    if i < es.len() {
        let v = es[i].1;
        let head = seq![Lexeme::Str(es[i].0), Lexeme::Colon];
        let sep = if i + 1 < es.len() {
            seq![Lexeme::Comma]
        } else {
            Seq::<Lexeme>::empty()
        };
        lemma_lexemes_separated(v);
        lemma_entry_lexemes_separated(es, i + 1);
        lemma_separated_concat(head, lexemes(v));
        let x = head + lexemes(v);
        assert(x[x.len() - 1] == lexemes(v)[lexemes(v).len() - 1]);
        lemma_separated_concat(x, sep);
        let y = x + sep;
        if sep.len() > 0 {
            assert(y[y.len() - 1] == sep[0]);
        } else {
            assert(y =~= x);
            assert(entry_lexemes(es, i + 1) == seq![Lexeme::Rcurl]);
        }
        lemma_separated_concat(y, entry_lexemes(es, i + 1));
        assert((y + entry_lexemes(es, i + 1))[0] == head[0]);
    }
}

proof fn lemma_item_lexemes_separated(xs: Seq<Shape>, i: int)
    requires
        0 <= i,
    ensures
        separated(item_lexemes(xs, i)),
        item_lexemes(xs, i).len() >= 1,
    decreases xs, xs.len() - i,
{
    if i < xs.len() {
        let x = xs[i];
        let sep = if i + 1 < xs.len() {
            seq![Lexeme::Comma]
        } else {
            Seq::<Lexeme>::empty()
        };
        lemma_lexemes_separated(x);
        lemma_item_lexemes_separated(xs, i + 1);
        lemma_separated_concat(lexemes(x), sep);
        let y = lexemes(x) + sep;
        if sep.len() > 0 {
            assert(y[y.len() - 1] == sep[0]);
        } else {
            assert(y =~= lexemes(x));
            assert(item_lexemes(xs, i + 1) == seq![Lexeme::Rsquare]);
        }
        lemma_separated_concat(y, item_lexemes(xs, i + 1));
    }
}

proof fn lemma_ws_skip(input: Seq<u8>, p: int, q: int)
    requires
        0 <= p <= q <= input.len(),
        forall|i: int| p <= i < q ==> is_ws(#[trigger] input[i]),
        q < input.len() ==> !is_ws(input[q]),
    ensures
        ws_end(input, p) == q,
    decreases q - p,
{
    if p < q {
        lemma_ws_skip(input, p + 1, q);
    }
}

proof fn lemma_lex_lexemes(input: Seq<u8>, p: int, ls: Seq<Lexeme>, gaps: Seq<Seq<u8>>)
    requires
        0 <= p <= input.len(),
        input.len() < usize::MAX,
        input.subrange(p, input.len() as int) == text_of(ls, gaps),
        gaps_ok(ls, gaps),
        payloads_ok(ls),
        separated(ls),
    ensures
        lex_from(input, p) == Lexed::Tokens(tokens_at(ls, gaps, p)),
        tokens_at(ls, gaps, p).len() == ls.len(),
        reads_at(input, tokens_at(ls, gaps, p), 0, ls),
    decreases ls.len(),
{
    let g = gaps[0];
    let s0 = p + g.len();
    let whole = input.subrange(p, input.len() as int);
    if ls.len() > 0 {
        assert(text_of(ls, gaps) == g + lexeme_text(ls[0]) + text_of(ls.drop_first(), gaps.drop_first()));
    }
    assert(g.len() <= whole.len());
    assert forall|i: int| 0 <= i < g.len() implies #[trigger] input[p + i] == g[i] && is_ws(g[i]) by {
        assert(whole[i] == input[p + i]);
        if ls.len() > 0 {
            assert((g + lexeme_text(ls[0]) + text_of(ls.drop_first(), gaps.drop_first()))[i] == g[i]);
        }
        assert(is_ws(gaps[0][i]));
    }
    assert forall|i: int| p <= i < s0 implies is_ws(#[trigger] input[i]) by {
        assert(input[p + (i - p)] == g[i - p]);
    }
    if ls.len() == 0 {
        assert(whole.len() == g.len());
        lemma_ws_skip(input, p, s0);
    } else {
        let l = ls[0];
        let t = lexeme_text(l);
        let rest = ls.drop_first();
        let grest = gaps.drop_first();
        let q = s0 + t.len();
        assert(whole == g + t + text_of(rest, grest));
        assert forall|i: int| 0 <= i < t.len() implies input[s0 + i] == #[trigger] t[i] by {
            assert(whole[g.len() + i] == input[s0 + i]);
            assert((g + t + text_of(rest, grest))[g.len() + i] == t[i]);
        }
        assert(input.subrange(q, input.len() as int) =~= text_of(rest, grest)) by {
            assert(whole.subrange((g.len() + t.len()) as int, whole.len() as int) =~= text_of(rest, grest));
        }
        assert(payloads_ok(rest)) by {
            assert forall|i: int| 0 <= i < rest.len() implies match #[trigger] rest[i] {
                Lexeme::Str(b) => string_body_ok(b),
                Lexeme::Num(b) => number_ok(b),
                _ => true,
            } by {
                assert(rest[i] == ls[i + 1]);
            }
        }
        assert(separated(rest)) by {
            assert forall|i: int| 0 <= i < rest.len() - 1 && ends_bare(#[trigger] rest[i]) implies closes(
                rest[i + 1],
            ) by {
                assert(rest[i] == ls[i + 1] && rest[i + 1] == ls[i + 2]);
            }
        }
        assert(gaps_ok(rest, grest)) by {
            assert forall|i: int, j: int| 0 <= i < grest.len() && 0 <= j < grest[i].len() implies is_ws(
                #[trigger] grest[i][j],
            ) by {
                assert(grest[i] == gaps[i + 1]);
            }
        }
        assert(match ls[0] {
            Lexeme::Str(b) => string_body_ok(b),
            Lexeme::Num(b) => number_ok(b),
            _ => true,
        });
        // What follows a number or a keyword cannot continue it.
        if q < input.len() && ends_bare(l) {
            let after = text_of(rest, grest);
            assert(input[q] == after[0]);
            if grest[0].len() > 0 {
                assert(after[0] == grest[0][0]);
                assert(is_ws(grest[0][0]));
            } else {
                assert(rest.len() > 0);
                assert(closes(ls[1]));
                assert(rest[0] == ls[1]);
                assert(after[0] == lexeme_text(rest[0])[0]);
            }
            assert(!(is_digit(input[q]) || input[q] == 0x2eu8 || is_exp_marker(input[q]) || is_alpha(
                input[q],
            )));
        }
        assert(input[s0] == t[0]);
        match l {
            Lexeme::Str(b) => {
                assert forall|i: int| 0 <= i < b.len() implies input[s0 + 1 + i] == #[trigger] b[i] by {
                    assert(t[1 + i] == b[i]);
                }
                assert(t[b.len() + 1int] == 0x22u8);
                assert(input.subrange(s0 + 1, s0 + 1 + b.len()) =~= b);
                string_text_scans(input, s0, b.len() as int);
                assert(reads_as(input, token_at(l, s0), l));
            },
            Lexeme::Num(b) => {
                assert(input.subrange(s0, s0 + b.len()) =~= b);
                number_text_scans(input, s0, b.len() as int);
                assert(reads_as(input, token_at(l, s0), l));
            },
            Lexeme::True => {
                reveal_with_fuel(alpha_end, 6);
                assert(input.subrange(s0, q) =~= t);
            },
            Lexeme::False => {
                reveal_with_fuel(alpha_end, 7);
                assert(input.subrange(s0, q) =~= t);
            },
            Lexeme::Null => {
                reveal_with_fuel(alpha_end, 6);
                assert(input.subrange(s0, q) =~= t);
            },
            _ => {},
        }
        lemma_ws_skip(input, p, s0);
        lemma_ws_skip(input, s0, s0);
        assert(next_step(input, p) == Step::Tok(token_at(l, s0), q));
        lemma_lex_lexemes(input, q, rest, grest);
        let toks = tokens_at(ls, gaps, p);
        assert(toks == seq![token_at(l, s0)] + tokens_at(rest, grest, q));
        assert forall|j: int| 0 <= j < ls.len() implies reads_as(input, toks[0 + j], #[trigger] ls[j]) by {
            if j == 0 {
                assert(toks[0] == token_at(l, s0));
            } else {
                assert(toks[j] == tokens_at(rest, grest, q)[0 + (j - 1)]);
                assert(ls[j] == rest[j - 1]);
            }
        }
    }
}

/// A value whose string and number payloads follow the lexical grammar,
/// written out as JSON text with any whitespace around its tokens, lexes to
/// tokens laid out as that value, whether or not an object repeats a key.
pub proof fn json_text_lexes(sh: Shape, gaps: Seq<Seq<u8>>)
    requires
        payloads_ok(lexemes(sh)),
        gaps_ok(lexemes(sh), gaps),
        text_of(lexemes(sh), gaps).len() < usize::MAX,
    ensures
        lex_from(text_of(lexemes(sh), gaps), 0) == Lexed::Tokens(tokens_at(lexemes(sh), gaps, 0)),
        reads_at(text_of(lexemes(sh), gaps), tokens_at(lexemes(sh), gaps, 0), 0, lexemes(sh)),
{
    let ls = lexemes(sh);
    let input = text_of(ls, gaps);
    lemma_lexemes_separated(sh);
    assert(input.subrange(0, input.len() as int) =~= input);
    lemma_lex_lexemes(input, 0, ls, gaps);
}

/// A JSON text, with any whitespace around its tokens and valid UTF-8
/// payloads, lexes and then parses back to the value it writes out, ending
/// after its last token, when no object in it repeats a key; when one does,
/// at any depth and whatever the values, parsing fails with `DuplicateKey`.
pub proof fn json_text_round_trip(sh: Shape, gaps: Seq<Seq<u8>>)
    requires
        payloads_ok(lexemes(sh)),
        payloads_utf8(lexemes(sh)),
        gaps_ok(lexemes(sh), gaps),
        text_of(lexemes(sh), gaps).len() < usize::MAX,
    ensures
        lex_from(text_of(lexemes(sh), gaps), 0) == Lexed::Tokens(tokens_at(lexemes(sh), gaps, 0)),
        parse_at(text_of(lexemes(sh), gaps), tokens_at(lexemes(sh), gaps, 0), 0) == if shape_ok(
            sh,
        ) {
            Ok::<(Shape, int), ParserError>((sh, lexemes(sh).len() as int))
        } else {
            Err::<(Shape, int), ParserError>(ParserError::DuplicateKey)
        },
{
    json_text_lexes(sh, gaps);
    parse_reads_layout(text_of(lexemes(sh), gaps), tokens_at(lexemes(sh), gaps, 0), 0, sh);
}

} // verus!
