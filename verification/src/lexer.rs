//! Lexer for the configuration format.
//!
//! The source text is cut into five kinds of tokens: identifiers (optionally
//! carrying an `http://` or `https://` scheme prefix), colons, newlines,
//! single spaces, and `#`-comments that run to the end of the line. A byte
//! that matches none of the five patterns is silently skipped and produces no
//! token; this library makes that lexical silence an explicit, specified
//! policy rather than an error.

use vstd::prelude::*;

verus! {

/// A lexical token of the configuration format.
///
/// `Identifier` is the only kind that carries a value: a maximal run of
/// characters from `[A-Za-z0-9\-_./]`, optionally preceded by a literal
/// `http://` or `https://` scheme. Two consecutive spaces yield two `Space`
/// tokens. A `Comment` stands for a `#`-run extending to (and excluding) the
/// next newline; its text is discarded at lexing time.
#[derive(Debug, PartialEq, Eq)]
pub enum Token {
    Identifier(String),
    Colon,
    NewLine,
    Space,
    Comment,
}

/// Mathematical model of a token: identifier text as a character sequence.
pub enum TokenModel {
    Identifier(Seq<char>),
    Colon,
    NewLine,
    Space,
    Comment,
}

impl View for Token {
    type V = TokenModel;

    open spec fn view(&self) -> TokenModel {
        match self {
            Token::Identifier(s) => TokenModel::Identifier(s@),
            Token::Colon => TokenModel::Colon,
            Token::NewLine => TokenModel::NewLine,
            Token::Space => TokenModel::Space,
            Token::Comment => TokenModel::Comment,
        }
    }
}

/// The models of a sequence of tokens, in order.
pub open spec fn token_models(tokens: Seq<Token>) -> Seq<TokenModel> {
    tokens.map_values(|t: Token| t@)
}

/// Characters admitted inside an identifier: `[A-Za-z0-9\-_./]`.
pub open spec fn is_ident_char(c: char) -> bool {
    (('A' as u32) <= (c as u32) && (c as u32) <= ('Z' as u32))
        || (('a' as u32) <= (c as u32) && (c as u32) <= ('z' as u32))
        || (('0' as u32) <= (c as u32) && (c as u32) <= ('9' as u32))
        || c == '-' || c == '_' || c == '.' || c == '/'
}

/// Length of the maximal prefix of `s` made of identifier characters.
pub open spec fn ident_run_len(s: Seq<char>) -> nat
    decreases s.len(),
{
    if s.len() > 0 && is_ident_char(s[0]) {
        1 + ident_run_len(s.skip(1))
    } else {
        0
    }
}

/// Length of the maximal prefix of `s` holding no newline.
pub open spec fn non_nl_run_len(s: Seq<char>) -> nat
    decreases s.len(),
{
    if s.len() > 0 && s[0] != '\n' {
        1 + non_nl_run_len(s.skip(1))
    } else {
        0
    }
}

/// Length of a leading URL scheme (`http://` or `https://`) at the head of
/// `s`, provided at least one identifier character follows it; zero when the
/// identifier at this position carries no scheme.
pub open spec fn scheme_len(s: Seq<char>) -> nat {
    if s.len() >= 9 && s[0] == 'h' && s[1] == 't' && s[2] == 't' && s[3] == 'p' && s[4] == 's'
        && s[5] == ':' && s[6] == '/' && s[7] == '/' && is_ident_char(s[8]) {
        8
    } else if s.len() >= 8 && s[0] == 'h' && s[1] == 't' && s[2] == 't' && s[3] == 'p'
        && s[4] == ':' && s[5] == '/' && s[6] == '/' && is_ident_char(s[7]) {
        7
    } else {
        0
    }
}

/// Length of the identifier token starting at the head of `s`: a scheme, if
/// one is present, followed by the maximal identifier-character run.
pub open spec fn ident_token_len(s: Seq<char>) -> nat {
    scheme_len(s) + ident_run_len(s.skip(scheme_len(s) as int))
}

/// `s` is exactly the text of one identifier token: lexing consumes all of it
/// in a single `Identifier`.
pub open spec fn is_ident_text(s: Seq<char>) -> bool {
    s.len() > 0 && ident_token_len(s) == s.len()
}

proof fn lemma_ident_run_le(s: Seq<char>)
    ensures
        ident_run_len(s) <= s.len(),
    decreases s.len(),
{
    if s.len() > 0 && is_ident_char(s[0]) {
        lemma_ident_run_le(s.skip(1));
    }
}

proof fn lemma_non_nl_run_le(s: Seq<char>)
    ensures
        non_nl_run_len(s) <= s.len(),
    decreases s.len(),
{
    if s.len() > 0 && s[0] != '\n' {
        lemma_non_nl_run_le(s.skip(1));
    }
}

proof fn lemma_ident_token_le(s: Seq<char>)
    ensures
        ident_token_len(s) <= s.len(),
{
    lemma_ident_run_le(s.skip(scheme_len(s) as int));
}

/// Models of the tokens that lexing cuts `s` into, in source order.
pub open spec fn spec_tokenize(s: Seq<char>) -> Seq<TokenModel>
    decreases s.len(),
    via spec_tokenize_decreases
{
    if s.len() == 0 {
        Seq::empty()
    } else if s[0] == ':' {
        seq![TokenModel::Colon] + spec_tokenize(s.skip(1))
    } else if s[0] == '\n' {
        seq![TokenModel::NewLine] + spec_tokenize(s.skip(1))
    } else if s[0] == ' ' {
        seq![TokenModel::Space] + spec_tokenize(s.skip(1))
    } else if s[0] == '#' {
        seq![TokenModel::Comment] + spec_tokenize(s.skip(non_nl_run_len(s) as int))
    } else if is_ident_char(s[0]) {
        seq![TokenModel::Identifier(s.take(ident_token_len(s) as int))]
            + spec_tokenize(s.skip(ident_token_len(s) as int))
    } else {
        spec_tokenize(s.skip(1))
    }
}

#[via_fn]
proof fn spec_tokenize_decreases(s: Seq<char>) {
    if s.len() > 0 {
        lemma_non_nl_run_le(s);
        lemma_ident_token_le(s);
    }
}

/// A sequence of identifier characters is one full identifier run.
pub proof fn lemma_run_all(s: Seq<char>)
    requires
        forall|q: int| 0 <= q < s.len() ==> is_ident_char(s[q]),
    ensures
        ident_run_len(s) == s.len(),
    decreases s.len(),
{
    if s.len() > 0 {
        lemma_run_all(s.skip(1));
    }
}

/// A full identifier run is made of identifier characters.
proof fn lemma_run_full(s: Seq<char>)
    requires
        ident_run_len(s) == s.len(),
    ensures
        forall|q: int| 0 <= q < s.len() ==> is_ident_char(s[q]),
    decreases s.len(),
{
    if s.len() > 0 {
        lemma_run_full(s.skip(1));
        assert forall|q: int| 0 <= q < s.len() implies is_ident_char(s[q]) by {
            if q > 0 {
                assert(s.skip(1)[q - 1] == s[q]);
            }
        }
    }
}

/// An identifier run stops exactly at the first non-identifier character.
proof fn lemma_run_all_concat(x: Seq<char>, y: Seq<char>)
    requires
        ident_run_len(x) == x.len(),
        y.len() > 0,
        !is_ident_char(y[0]),
    ensures
        ident_run_len(x + y) == x.len(),
    decreases x.len(),
{
    if x.len() == 0 {
        assert(x + y =~= y);
    } else {
        assert((x + y)[0] == x[0]);
        assert((x + y).skip(1) =~= x.skip(1) + y);
        lemma_run_all_concat(x.skip(1), y);
    }
}

/// A newline-free span followed by more text keeps its non-newline run.
proof fn lemma_non_nl_concat(x: Seq<char>, y: Seq<char>)
    requires
        forall|q: int| 0 <= q < x.len() ==> x[q] != '\n',
        y.len() > 0,
        y[0] == '\n',
    ensures
        non_nl_run_len(x + y) == x.len(),
    decreases x.len(),
{
    if x.len() == 0 {
        assert(x + y =~= y);
    } else {
        assert((x + y)[0] == x[0]);
        assert((x + y).skip(1) =~= x.skip(1) + y);
        assert forall|q: int| 0 <= q < x.skip(1).len() implies x.skip(1)[q] != '\n' by {
            assert(x.skip(1)[q] == x[q + 1]);
        }
        lemma_non_nl_concat(x.skip(1), y);
    }
}

/// What may follow one identifier token in the text without extending it: a
/// newline, or a colon that is itself followed by a space, a newline or the
/// end of the text.
pub open spec fn ident_boundary(b: Seq<char>) -> bool {
    b.len() > 0 && (b[0] == '\n' || (b[0] == ':' && (b.len() == 1 || b[1] == ' ' || b[1]
        == '\n')))
}

/// At such a boundary, the identifier token starting the text is exactly the
/// identifier text in front of it: the following characters cannot extend the
/// run, nor complete a scheme.
pub proof fn lemma_ident_token_boundary(a: Seq<char>, b: Seq<char>)
    requires
        is_ident_text(a),
        ident_boundary(b),
    ensures
        ident_token_len(a + b) == a.len(),
{
    let t = a + b;
    assert forall|j: int| 0 <= j < b.len() implies t[a.len() + j] == b[j] by {}
    assert(!is_ident_char('\n'));
    assert(!is_ident_char(':'));
    if scheme_len(a) == 8 {
        assert(scheme_len(t) == 8);
        assert(t.skip(8) =~= a.skip(8) + b);
        lemma_run_all_concat(a.skip(8), b);
    } else if scheme_len(a) == 7 {
        assert(scheme_len(t) == 7);
        assert(t.skip(7) =~= a.skip(7) + b);
        lemma_run_all_concat(a.skip(7), b);
    } else {
        assert(a.skip(0) =~= a);
        lemma_run_full(a);
        assert(scheme_len(t) == 0) by {
            if a.len() >= 6 {
                assert(is_ident_char(t[4]) && is_ident_char(t[5]));
            } else if a.len() == 5 {
                assert(is_ident_char(t[4]));
                assert(t[5] == b[0]);
                if b[0] == ':' && t.len() >= 9 {
                    assert(t[6] == b[1]);
                }
            } else if a.len() == 4 {
                assert(t[4] == b[0]);
                if b[0] == ':' && t.len() >= 8 {
                    assert(t[5] == b[1]);
                }
            } else if a.len() == 3 {
                assert(t[3] == b[0]);
            } else if a.len() == 2 {
                assert(t[2] == b[0]);
            } else {
                assert(t[1] == b[0]);
            }
        }
        lemma_run_all_concat(a, b);
        assert(t.skip(0) =~= t);
    }
}

/// At such a boundary, lexing emits the identifier text as one token and
/// goes on with the rest.
pub proof fn lemma_tokenize_ident_boundary(a: Seq<char>, b: Seq<char>)
    requires
        is_ident_text(a),
        ident_boundary(b),
    ensures
        spec_tokenize(a + b) == seq![TokenModel::Identifier(a)] + spec_tokenize(b),
{
    let t = a + b;
    lemma_ident_token_boundary(a, b);
    if scheme_len(a) == 0 {
        assert(a.skip(0) =~= a);
        lemma_run_full(a);
        assert(is_ident_char(t[0]));
    } else {
        assert(t[0] == 'h');
    }
    assert(t.take(a.len() as int) =~= a);
    assert(t.skip(a.len() as int) =~= b);
}

/// A `#`-line tokenizes to one comment token and the newline that ends it.
pub proof fn lemma_tokenize_comment_line(d: Seq<char>, rest: Seq<char>)
    requires
        forall|q: int| 0 <= q < d.len() ==> d[q] != '\n',
    ensures
        spec_tokenize(seq!['#'] + d + seq!['\n'] + rest) == seq![
            TokenModel::Comment,
            TokenModel::NewLine,
        ] + spec_tokenize(rest),
{
    let x = seq!['#'] + d;
    let y = seq!['\n'] + rest;
    let t = seq!['#'] + d + seq!['\n'] + rest;
    assert(t =~= x + y);
    assert forall|q: int| 0 <= q < x.len() implies x[q] != '\n' by {}
    lemma_non_nl_concat(x, y);
    assert((x + y)[0] == '#');
    assert(non_nl_run_len(x + y) == x.len());
    assert((x + y).skip(x.len() as int) =~= y);
    assert(spec_tokenize(x + y) == seq![TokenModel::Comment] + spec_tokenize(y));
    assert(y.skip(1) =~= rest);
    assert(spec_tokenize(y) == seq![TokenModel::NewLine] + spec_tokenize(rest));
    assert(seq![TokenModel::Comment] + (seq![TokenModel::NewLine] + spec_tokenize(rest)) =~= seq![
        TokenModel::Comment,
        TokenModel::NewLine,
    ] + spec_tokenize(rest));
}

proof fn lemma_ident_run_step(s: Seq<char>, j: int)
    requires
        0 <= j < s.len(),
        is_ident_char(s[j]),
    ensures
        ident_run_len(s.skip(j)) == 1 + ident_run_len(s.skip(j + 1)),
{
    assert(s.skip(j)[0] == s[j]);
    assert(s.skip(j).skip(1) =~= s.skip(j + 1));
}

proof fn lemma_non_nl_run_step(s: Seq<char>, j: int)
    requires
        0 <= j < s.len(),
        s[j] != '\n',
    ensures
        non_nl_run_len(s.skip(j)) == 1 + non_nl_run_len(s.skip(j + 1)),
{
    assert(s.skip(j)[0] == s[j]);
    assert(s.skip(j).skip(1) =~= s.skip(j + 1));
}

proof fn lemma_token_models_push(ts: Seq<Token>, t: Token)
    ensures
        token_models(ts.push(t)) =~= token_models(ts).push(t@),
{
}

/// Whether `c` may stand inside an identifier.
fn ident_char(c: char) -> (b: bool)
    ensures
        b == is_ident_char(c),
{
    let u = c as u32;
    (('A' as u32) <= u && u <= ('Z' as u32)) || (('a' as u32) <= u && u <= ('z' as u32))
        || (('0' as u32) <= u && u <= ('9' as u32)) || c == '-' || c == '_' || c == '.'
        || c == '/'
}

/// Length of the identifier token that starts at position `i` of `source`.
fn ident_token_len_at(source: &str, i: usize, n: usize) -> (k: usize)
    requires
        n == source@.len(),
        i < n,
        is_ident_char(source@[i as int]),
    ensures
        k == ident_token_len(source@.skip(i as int)),
        1 <= k && i + k <= n,
{
    let ghost s = source@;
    let ghost rest = s.skip(i as int);
    let mut sch: usize = 0;
    if n - i >= 9 && source.get_char(i) == 'h' && source.get_char(i + 1) == 't'
        && source.get_char(i + 2) == 't' && source.get_char(i + 3) == 'p'
        && source.get_char(i + 4) == 's' && source.get_char(i + 5) == ':'
        && source.get_char(i + 6) == '/' && source.get_char(i + 7) == '/'
        && ident_char(source.get_char(i + 8)) {
        sch = 8;
    } else if n - i >= 8 && source.get_char(i) == 'h' && source.get_char(i + 1) == 't'
        && source.get_char(i + 2) == 't' && source.get_char(i + 3) == 'p'
        && source.get_char(i + 4) == ':' && source.get_char(i + 5) == '/'
        && source.get_char(i + 6) == '/' && ident_char(source.get_char(i + 7)) {
        sch = 7;
    }
    proof {
        assert forall|j: int| 0 <= j < rest.len() implies rest[j] == s[i + j] by {}
        assert(sch == scheme_len(rest));
    }
    let start = i + sch;
    let mut j = start;
    proof {
        assert(rest.skip(sch as int) =~= s.skip(start as int));
    }
    while j < n && ident_char(source.get_char(j))
        invariant
            n == s.len(),
            s == source@,
            start <= j <= n,
            ident_run_len(s.skip(start as int)) == (j - start) + ident_run_len(
                s.skip(j as int),
            ),
        decreases n - j,
    {
        proof {
            lemma_ident_run_step(s, j as int);
        }
        j = j + 1;
    }
    proof {
        if j < n {
            assert(s.skip(j as int)[0] == s[j as int]);
        }
        assert(ident_run_len(s.skip(j as int)) == 0);
        if sch == 0 {
            assert(rest[0] == s[i as int]);
        }
    }
    j - i
}

/// Cut `source` into its tokens, in source order.
///
/// The result is exactly `spec_tokenize(source@)`: identifiers are maximal
/// runs (with an optional `http://`/`https://` scheme), a `#`-run up to the
/// next newline becomes one `Comment`, and unrecognized characters are
/// skipped without producing a token.
pub fn tokenize(source: &str) -> (tokens: Vec<Token>)
    ensures
        token_models(tokens@) == spec_tokenize(source@),
{
    let n = source.unicode_len();
    let mut tokens: Vec<Token> = Vec::new();
    let mut i: usize = 0;
    proof {
        assert(source@.skip(0) =~= source@);
        assert(token_models(tokens@) + spec_tokenize(source@) =~= spec_tokenize(source@));
    }
    while i < n
        invariant
            n == source@.len(),
            i <= n,
            spec_tokenize(source@) == token_models(tokens@) + spec_tokenize(
                source@.skip(i as int),
            ),
        decreases n - i,
    {
        let ghost s = source@;
        let ghost rest = s.skip(i as int);
        proof {
            assert(rest[0] == s[i as int]);
        }
        let c = source.get_char(i);
        if c == ':' {
            proof {
                assert(rest.skip(1) =~= s.skip(i as int + 1));
                lemma_token_models_push(tokens@, Token::Colon);
                assert(token_models(tokens@.push(Token::Colon)) + spec_tokenize(
                    s.skip(i as int + 1),
                ) =~= token_models(tokens@) + spec_tokenize(rest));
            }
            tokens.push(Token::Colon);
            i = i + 1;
        } else if c == '\n' {
            proof {
                assert(rest.skip(1) =~= s.skip(i as int + 1));
                lemma_token_models_push(tokens@, Token::NewLine);
                assert(token_models(tokens@.push(Token::NewLine)) + spec_tokenize(
                    s.skip(i as int + 1),
                ) =~= token_models(tokens@) + spec_tokenize(rest));
            }
            tokens.push(Token::NewLine);
            i = i + 1;
        } else if c == ' ' {
            proof {
                assert(rest.skip(1) =~= s.skip(i as int + 1));
                lemma_token_models_push(tokens@, Token::Space);
                assert(token_models(tokens@.push(Token::Space)) + spec_tokenize(
                    s.skip(i as int + 1),
                ) =~= token_models(tokens@) + spec_tokenize(rest));
            }
            tokens.push(Token::Space);
            i = i + 1;
        } else if c == '#' {
            let mut j = i + 1;
            proof {
                lemma_non_nl_run_step(s, i as int);
            }
            while j < n && source.get_char(j) != '\n'
                invariant
                    n == s.len(),
                    s == source@,
                    i < j <= n,
                    non_nl_run_len(s.skip(i as int)) == (j - i) + non_nl_run_len(
                        s.skip(j as int),
                    ),
                decreases n - j,
            {
                proof {
                    lemma_non_nl_run_step(s, j as int);
                }
                j = j + 1;
            }
            proof {
                if j < n {
                    assert(s.skip(j as int)[0] == s[j as int]);
                }
                assert(non_nl_run_len(s.skip(j as int)) == 0);
                assert(non_nl_run_len(rest) == j - i);
                assert(rest.skip(j - i) =~= s.skip(j as int));
                lemma_token_models_push(tokens@, Token::Comment);
                assert(token_models(tokens@.push(Token::Comment)) + spec_tokenize(
                    s.skip(j as int),
                ) =~= token_models(tokens@) + spec_tokenize(rest));
            }
            tokens.push(Token::Comment);
            i = j;
        } else if ident_char(c) {
            let k = ident_token_len_at(source, i, n);
            let text = source.substring_char(i, i + k);
            let tok = Token::Identifier(text.to_owned());
            proof {
                assert(rest.take(k as int) =~= s.subrange(i as int, i as int + k));
                assert(rest.skip(k as int) =~= s.skip(i as int + k));
                lemma_token_models_push(tokens@, tok);
                assert(token_models(tokens@.push(tok)) + spec_tokenize(s.skip(i as int + k))
                    =~= token_models(tokens@) + spec_tokenize(rest));
            }
            tokens.push(tok);
            i = i + k;
        } else {
            proof {
                assert(rest.skip(1) =~= s.skip(i as int + 1));
            }
            i = i + 1;
        }
    }
    proof {
        assert(source@.skip(n as int).len() == 0);
        assert(token_models(tokens@) + spec_tokenize(source@.skip(n as int)) =~= token_models(
            tokens@,
        ));
    }
    tokens
}

} // verus!
