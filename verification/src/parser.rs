//! Parser for the configuration format.
//!
//! Four sequential, independently optional stages run strictly in order:
//! three scalar sections (`editor`, `github_token`, `pr_url`), each a key,
//! a colon, an optional single space, a value identifier and a newline; then
//! the `comments` list section, whose body is a sequence of lines, each
//! either a `#`-comment (dropped) or one identifier entry (kept, in file
//! order). A stage whose key does not match is skipped and its field keeps
//! its default. A stage that was entered but does not conform to the grammar
//! yields a typed `ParseError` naming the expected token kind and the
//! section; the parser never panics.
//!
//! Two behaviours of the format are deliberate, documented policy choices:
//! a token inside the list section that is neither a `#`-comment nor an
//! identifier entry (a stray space, say) is a structural error rather than
//! being skipped, and tokens left over after all four stages are ignored.

use crate::lexer::{
    Token, TokenModel, ident_boundary, is_ident_char, is_ident_text, lemma_run_all,
    lemma_tokenize_comment_line, lemma_tokenize_ident_boundary, scheme_len, spec_tokenize,
    token_models,
};
use vstd::prelude::*;

verus! {

/// The kind of a token, as named in parse errors.
#[derive(Debug, Clone, Copy, PartialEq, Eq)]
pub enum TokenKind {
    Identifier,
    Colon,
    NewLine,
    Space,
    Comment,
}

/// The section of the configuration being parsed when an error arose.
#[derive(Debug, Clone, Copy, PartialEq, Eq)]
pub enum Section {
    Editor,
    GithubToken,
    PrUrl,
    Comments,
}

/// A section was positively entered (its key matched) but its body did not
/// conform to the grammar: `expected` names the token kind that was missing
/// or of the wrong kind.
#[derive(Debug, Clone, Copy, PartialEq, Eq)]
pub struct ParseError {
    pub expected: TokenKind,
    pub section: Section,
}

/// The parsed configuration record. Omitted sections keep their defaults:
/// empty strings and no comments.
#[derive(Debug)]
pub struct ConfigFile {
    pub editor_command: String,
    pub github_token: String,
    pub pr_url: String,
    pub comments: Vec<String>,
}

/// Mathematical model of a configuration record.
pub struct ConfigModel {
    pub editor_command: Seq<char>,
    pub github_token: Seq<char>,
    pub pr_url: Seq<char>,
    pub comments: Seq<Seq<char>>,
}

impl View for ConfigFile {
    type V = ConfigModel;

    open spec fn view(&self) -> ConfigModel {
        ConfigModel {
            editor_command: self.editor_command@,
            github_token: self.github_token@,
            pr_url: self.pr_url@,
            comments: self.comments.deep_view(),
        }
    }
}

/// The record all of whose fields are defaults.
pub open spec fn default_model() -> ConfigModel {
    ConfigModel {
        editor_command: Seq::empty(),
        github_token: Seq::empty(),
        pr_url: Seq::empty(),
        comments: Seq::empty(),
    }
}

/// Outcome of one scalar stage.
pub enum ScalarOutcome {
    /// The leading key did not match: nothing consumed, field keeps its
    /// default.
    Absent,
    /// The stage parsed `used` tokens and bound `text` to the field.
    Value { text: Seq<char>, used: int },
    /// The key matched but a required token was absent or of the wrong kind.
    Fault(ParseError),
}

/// One scalar stage over the head of `toks`: key, colon, optional single
/// space, value identifier, newline.
pub open spec fn scalar_section(toks: Seq<TokenModel>, key: Seq<char>, section: Section) -> ScalarOutcome {
    if !(toks.len() > 0 && toks[0] == TokenModel::Identifier(key)) {
        ScalarOutcome::Absent
    } else if !(toks.len() > 1 && toks[1] is Colon) {
        ScalarOutcome::Fault(ParseError { expected: TokenKind::Colon, section })
    } else {
        let j: int = if toks.len() > 2 && toks[2] is Space {
            3
        } else {
            2
        };
        if !(toks.len() > j && toks[j] is Identifier) {
            ScalarOutcome::Fault(ParseError { expected: TokenKind::Identifier, section })
        } else if !(toks.len() > j + 1 && toks[j + 1] is NewLine) {
            ScalarOutcome::Fault(ParseError { expected: TokenKind::NewLine, section })
        } else {
            ScalarOutcome::Value { text: toks[j]->Identifier_0, used: j + 2 }
        }
    }
}

/// A scalar stage folded into value-and-remainder form: a skipped stage
/// yields the default (empty) value and consumes nothing.
pub open spec fn after_scalar(toks: Seq<TokenModel>, key: Seq<char>, section: Section) -> Result<
    (Seq<char>, Seq<TokenModel>),
    ParseError,
> {
    match scalar_section(toks, key, section) {
        ScalarOutcome::Absent => Ok((Seq::empty(), toks)),
        ScalarOutcome::Value { text, used } => Ok((text, toks.skip(used))),
        ScalarOutcome::Fault(e) => Err(e),
    }
}

/// Number of tokens up to and including the first newline, or all of them
/// when no newline remains: the span a `#`-comment line discards.
pub open spec fn nl_skip_len(toks: Seq<TokenModel>) -> nat
    decreases toks.len(),
{
    if toks.len() == 0 {
        0
    } else if toks[0] is NewLine {
        1
    } else {
        1 + nl_skip_len(toks.skip(1))
    }
}

proof fn lemma_nl_skip_le(toks: Seq<TokenModel>)
    ensures
        nl_skip_len(toks) <= toks.len(),
    decreases toks.len(),
{
    if toks.len() > 0 && !(toks[0] is NewLine) {
        lemma_nl_skip_le(toks.skip(1));
    }
}

/// The body of the list section: each `#`-comment line is discarded whole,
/// each identifier entry followed by a newline is kept in encounter order,
/// and any other token is a structural error.
pub open spec fn comment_entries(toks: Seq<TokenModel>) -> Result<Seq<Seq<char>>, ParseError>
    decreases toks.len(),
    via comment_entries_decreases
{
    if toks.len() == 0 {
        Ok(Seq::empty())
    } else if toks[0] is Comment {
        comment_entries(toks.skip(nl_skip_len(toks) as int))
    } else if toks[0] is Identifier {
        if toks.len() > 1 && toks[1] is NewLine {
            match comment_entries(toks.skip(2)) {
                Ok(rest) => Ok(seq![toks[0]->Identifier_0] + rest),
                Err(e) => Err(e),
            }
        } else {
            Err(ParseError { expected: TokenKind::NewLine, section: Section::Comments })
        }
    } else {
        Err(ParseError { expected: TokenKind::Identifier, section: Section::Comments })
    }
}

#[via_fn]
proof fn comment_entries_decreases(toks: Seq<TokenModel>) {
    if toks.len() > 0 {
        lemma_nl_skip_le(toks);
    }
}

/// The `comments` stage: when its key matches, a colon and a newline are
/// required, then the body runs to the end of the token sequence.
pub open spec fn comments_section(toks: Seq<TokenModel>) -> Result<Seq<Seq<char>>, ParseError> {
    if !(toks.len() > 0 && toks[0] == TokenModel::Identifier("comments"@)) {
        Ok(Seq::empty())
    } else if !(toks.len() > 1 && toks[1] is Colon) {
        Err(ParseError { expected: TokenKind::Colon, section: Section::Comments })
    } else if !(toks.len() > 2 && toks[2] is NewLine) {
        Err(ParseError { expected: TokenKind::NewLine, section: Section::Comments })
    } else {
        comment_entries(toks.skip(3))
    }
}

/// What parsing a token sequence yields: the record, or the first
/// structural error.
pub open spec fn spec_parse(toks: Seq<TokenModel>) -> Result<ConfigModel, ParseError> {
    match after_scalar(toks, "editor"@, Section::Editor) {
        Err(e) => Err(e),
        Ok((editor, toks1)) => match after_scalar(toks1, "github_token"@, Section::GithubToken) {
            Err(e) => Err(e),
            Ok((github, toks2)) => match after_scalar(toks2, "pr_url"@, Section::PrUrl) {
                Err(e) => Err(e),
                Ok((url, toks3)) => match comments_section(toks3) {
                    Err(e) => Err(e),
                    Ok(cs) => Ok(
                        ConfigModel {
                            editor_command: editor,
                            github_token: github,
                            pr_url: url,
                            comments: cs,
                        },
                    ),
                },
            },
        },
    }
}

/// A prefix of already-collected entries in front of a body result.
pub open spec fn prefixed(acc: Seq<Seq<char>>, r: Result<Seq<Seq<char>>, ParseError>) -> Result<
    Seq<Seq<char>>,
    ParseError,
> {
    match r {
        Ok(rest) => Ok(acc + rest),
        Err(e) => Err(e),
    }
}

/// Character-for-character string equality.
fn str_eq(a: &str, b: &str) -> (r: bool)
    ensures
        r == (a@ == b@),
{
    let na = a.unicode_len();
    let nb = b.unicode_len();
    if na != nb {
        return false;
    }
    let mut i: usize = 0;
    while i < na
        invariant
            na == a@.len(),
            na == b@.len(),
            i <= na,
            forall|j: int| 0 <= j < i ==> a@[j] == b@[j],
        decreases na - i,
    {
        if a.get_char(i) != b.get_char(i) {
            return false;
        }
        i = i + 1;
    }
    proof {
        assert(a@ =~= b@);
    }
    true
}

/// Outcome of one executable scalar stage.
enum ScalarStep {
    Absent,
    Value(String, usize),
    Fault(ParseError),
}

/// One executable scalar stage, reading tokens from position `i`.
fn scalar_step(tokens: &Vec<Token>, i: usize, key: &str, section: Section) -> (r: ScalarStep)
    requires
        i <= tokens@.len(),
    ensures
        (match r {
            ScalarStep::Absent => scalar_section(
                token_models(tokens@).skip(i as int),
                key@,
                section,
            ) is Absent,
            ScalarStep::Value(text, used) => scalar_section(
                token_models(tokens@).skip(i as int),
                key@,
                section,
            ) == (ScalarOutcome::Value { text: text@, used: used as int }) && i + used <= tokens@.len(),
            ScalarStep::Fault(e) => scalar_section(
                token_models(tokens@).skip(i as int),
                key@,
                section,
            ) == ScalarOutcome::Fault(e),
        }),
{
    let ghost toks = token_models(tokens@).skip(i as int);
    proof {
        assert forall|j: int| 0 <= j < toks.len() implies toks[j] == tokens@[i + j]@ by {}
    }
    let n = tokens.len();
    let entered = if i < n {
        match &tokens[i] {
            Token::Identifier(s) => str_eq(s.as_str(), key),
            _ => false,
        }
    } else {
        false
    };
    if !entered {
        return ScalarStep::Absent;
    }
    if !(i + 1 < n && matches!(&tokens[i + 1], Token::Colon)) {
        return ScalarStep::Fault(ParseError { expected: TokenKind::Colon, section });
    }
    let j: usize = if i + 2 < n && matches!(&tokens[i + 2], Token::Space) {
        3
    } else {
        2
    };
    if !(i + j < n && matches!(&tokens[i + j], Token::Identifier(_))) {
        return ScalarStep::Fault(ParseError { expected: TokenKind::Identifier, section });
    }
    if !(i + j + 1 < n && matches!(&tokens[i + j + 1], Token::NewLine)) {
        return ScalarStep::Fault(ParseError { expected: TokenKind::NewLine, section });
    }
    let text = if let Token::Identifier(s) = &tokens[i + j] {
        s.clone()
    } else {
        String::new()
    };
    ScalarStep::Value(text, j + 2)
}

/// The executable body of the list section, reading tokens from position
/// `start` to the end.
#[verifier::loop_isolation(false)]
fn entries_loop(tokens: &Vec<Token>, start: usize) -> (r: Result<Vec<String>, ParseError>)
    requires
        start <= tokens@.len(),
    ensures
        (match r {
            Ok(cs) => comment_entries(token_models(tokens@).skip(start as int)) == Ok::<
                _,
                ParseError,
            >(cs.deep_view()),
            Err(e) => comment_entries(token_models(tokens@).skip(start as int)) == Err::<
                Seq<Seq<char>>,
                ParseError,
            >(e),
        }),
{
    let ghost tv = token_models(tokens@);
    proof {
        assert forall|j: int| 0 <= j < tv.len() implies tv[j] == tokens@[j]@ by {}
    }
    let n = tokens.len();
    let mut i = start;
    let mut comments: Vec<String> = Vec::new();
    proof {
        assert(comments.deep_view() + comment_entries(tv.skip(start as int))->Ok_0
            =~= comment_entries(tv.skip(start as int))->Ok_0);
    }
    while i < n
        invariant
            start <= i <= n,
            comment_entries(tv.skip(start as int)) == prefixed(
                comments.deep_view(),
                comment_entries(tv.skip(i as int)),
            ),
        decreases n - i,
    {
        let ghost acc = comments.deep_view();
        let ghost here = tv.skip(i as int);
        proof {
            assert(here[0] == tv[i as int]);
        }
        match &tokens[i] {
            Token::Comment => {
                let mut j = i;
                while j < n && !matches!(&tokens[j], Token::NewLine)
                    invariant
                        i <= j <= n,
                        nl_skip_len(tv.skip(i as int)) == (j - i) + nl_skip_len(
                            tv.skip(j as int),
                        ),
                    decreases n - j,
                {
                    proof {
                        assert(tv.skip(j as int)[0] == tv[j as int]);
                        assert(tv.skip(j as int).skip(1) =~= tv.skip(j as int + 1));
                    }
                    j = j + 1;
                }
                proof {
                    if j < n {
                        assert(tv.skip(j as int)[0] == tv[j as int]);
                        assert(nl_skip_len(tv.skip(j as int)) == 1);
                    } else {
                        assert(tv.skip(j as int).len() == 0);
                    }
                }
                let next = if j < n {
                    j + 1
                } else {
                    j
                };
                proof {
                    assert(next == i + nl_skip_len(tv.skip(i as int)));
                    assert(tv.skip(i as int).skip(nl_skip_len(tv.skip(i as int)) as int) =~= tv.skip(
                        next as int,
                    ));
                }
                i = next;
            },
            Token::Identifier(s) => {
                if !(i + 1 < n && matches!(&tokens[i + 1], Token::NewLine)) {
                    proof {
                        if i + 1 < n {
                            assert(here[1] == tv[i as int + 1]);
                        }
                    }
                    return Err(
                        ParseError { expected: TokenKind::NewLine, section: Section::Comments },
                    );
                }
                let text = s.clone();
                proof {
                    assert(here[1] == tv[i as int + 1]);
                    assert(here.skip(2) =~= tv.skip(i as int + 2));
                    let r = comment_entries(tv.skip(i as int + 2));
                    if r is Ok {
                        assert(acc + (seq![text@] + r->Ok_0) =~= acc.push(text@) + r->Ok_0);
                    }
                }
                comments.push(text);
                proof {
                    assert(comments.deep_view() =~= acc.push(tokens@[i as int]@->Identifier_0));
                }
                i = i + 2;
            },
            _ => {
                return Err(
                    ParseError { expected: TokenKind::Identifier, section: Section::Comments },
                );
            },
        }
    }
    proof {
        assert(tv.skip(i as int).len() == 0);
        assert(comments.deep_view() + Seq::<Seq<char>>::empty() =~= comments.deep_view());
    }
    Ok(comments)
}

/// The executable `comments` stage, reading tokens from position `i`.
#[verifier::loop_isolation(false)]
fn comments_step(tokens: &Vec<Token>, i: usize) -> (r: Result<Vec<String>, ParseError>)
    requires
        i <= tokens@.len(),
    ensures
        (match r {
            Ok(cs) => comments_section(token_models(tokens@).skip(i as int)) == Ok::<
                _,
                ParseError,
            >(cs.deep_view()),
            Err(e) => comments_section(token_models(tokens@).skip(i as int)) == Err::<
                Seq<Seq<char>>,
                ParseError,
            >(e),
        }),
{
    let ghost tv = token_models(tokens@);
    let ghost toks = tv.skip(i as int);
    proof {
        assert forall|j: int| 0 <= j < tv.len() implies tv[j] == tokens@[j]@ by {}
        assert forall|j: int| 0 <= j < toks.len() implies toks[j] == tv[i + j] by {}
    }
    let n = tokens.len();
    let entered = if i < n {
        match &tokens[i] {
            Token::Identifier(s) => str_eq(s.as_str(), "comments"),
            _ => false,
        }
    } else {
        false
    };
    if !entered {
        let empty: Vec<String> = Vec::new();
        proof {
            assert(empty.deep_view() =~= Seq::<Seq<char>>::empty());
        }
        return Ok(empty);
    }
    if !(i + 1 < n && matches!(&tokens[i + 1], Token::Colon)) {
        return Err(ParseError { expected: TokenKind::Colon, section: Section::Comments });
    }
    if !(i + 2 < n && matches!(&tokens[i + 2], Token::NewLine)) {
        return Err(ParseError { expected: TokenKind::NewLine, section: Section::Comments });
    }
    proof {
        assert(toks.skip(3) =~= tv.skip(i as int + 3));
    }
    entries_loop(tokens, i + 3)
}

/// Parse a token sequence into a configuration record.
///
/// The result is exactly `spec_parse` of the tokens' models: a success binds
/// each present section's value and collects the comment entries in file
/// order, and a failure reports the first section whose body broke the
/// grammar, with the token kind that was expected there.
#[verifier::loop_isolation(false)]
#[verifier::rlimit(100)]
pub fn parse(tokens: &Vec<Token>) -> (r: Result<ConfigFile, ParseError>)
    ensures
        (match r {
            Ok(c) => spec_parse(token_models(tokens@)) == Ok::<ConfigModel, ParseError>(c@),
            Err(e) => spec_parse(token_models(tokens@)) == Err::<ConfigModel, ParseError>(e),
        }),
{
    let ghost tv = token_models(tokens@);
    proof {
        assert forall|j: int| 0 <= j < tv.len() implies tv[j] == tokens@[j]@ by {}
        assert(tv.skip(0) =~= tv);
    }
    let n = tokens.len();
    let mut i: usize = 0;
    let mut editor_command = String::new();
    let mut github_token = String::new();
    let mut pr_url = String::new();

    match scalar_step(tokens, i, "editor", Section::Editor) {
        ScalarStep::Fault(e) => {
            return Err(e);
        },
        ScalarStep::Absent => {},
        ScalarStep::Value(text, used) => {
            editor_command = text;
            i = used;
        },
    }
    assert(after_scalar(tv, "editor"@, Section::Editor) == Ok::<_, ParseError>(
        (editor_command@, tv.skip(i as int)),
    ));

    let ghost i1 = i as int;
    match scalar_step(tokens, i, "github_token", Section::GithubToken) {
        ScalarStep::Fault(e) => {
            return Err(e);
        },
        ScalarStep::Absent => {},
        ScalarStep::Value(text, used) => {
            github_token = text;
            proof {
                assert(tv.skip(i1).skip(used as int) =~= tv.skip(i1 + used));
            }
            i = i + used;
        },
    }
    assert(after_scalar(tv.skip(i1), "github_token"@, Section::GithubToken) == Ok::<
        _,
        ParseError,
    >((github_token@, tv.skip(i as int))));

    let ghost i2 = i as int;
    match scalar_step(tokens, i, "pr_url", Section::PrUrl) {
        ScalarStep::Fault(e) => {
            return Err(e);
        },
        ScalarStep::Absent => {},
        ScalarStep::Value(text, used) => {
            pr_url = text;
            proof {
                assert(tv.skip(i2).skip(used as int) =~= tv.skip(i2 + used));
            }
            i = i + used;
        },
    }
    assert(after_scalar(tv.skip(i2), "pr_url"@, Section::PrUrl) == Ok::<_, ParseError>(
        (pr_url@, tv.skip(i as int)),
    ));

    let ghost i3 = i as int;
    let comments = match comments_step(tokens, i) {
        Ok(cs) => cs,
        Err(e) => {
            return Err(e);
        },
    };
    assert(comments_section(tv.skip(i3)) == Ok::<Seq<Seq<char>>, ParseError>(
        comments.deep_view(),
    ));

    Ok(ConfigFile { editor_command, github_token, pr_url, comments })
}

/// The text of one scalar section: nothing for a default field, otherwise
/// the key, a colon, one space, the value and a newline.
pub open spec fn scalar_line(key: Seq<char>, v: Seq<char>) -> Seq<char> {
    if v.len() == 0 {
        Seq::empty()
    } else {
        key + seq![':', ' '] + v + seq!['\n']
    }
}

/// The text of the list section's body: each entry on a line of its own.
pub open spec fn entry_lines(cs: Seq<Seq<char>>) -> Seq<char>
    decreases cs.len(),
{
    if cs.len() == 0 {
        Seq::empty()
    } else {
        cs[0] + seq!['\n'] + entry_lines(cs.skip(1))
    }
}

/// The text of the list section: nothing when there are no entries.
pub open spec fn comments_block(cs: Seq<Seq<char>>) -> Seq<char> {
    if cs.len() == 0 {
        Seq::empty()
    } else {
        "comments"@ + seq![':', '\n'] + entry_lines(cs)
    }
}

/// A record serialized back to the grammar: one section per populated field,
/// in the fixed section order.
pub open spec fn spec_render(c: ConfigModel) -> Seq<char> {
    scalar_line("editor"@, c.editor_command) + scalar_line("github_token"@, c.github_token)
        + scalar_line("pr_url"@, c.pr_url) + comments_block(c.comments)
}

/// A record whose populated fields can each stand as one identifier token:
/// the condition under which serializing is faithful.
pub open spec fn wf_model(c: ConfigModel) -> bool {
    &&& (c.editor_command.len() > 0 ==> is_ident_text(c.editor_command))
    &&& (c.github_token.len() > 0 ==> is_ident_text(c.github_token))
    &&& (c.pr_url.len() > 0 ==> is_ident_text(c.pr_url))
    &&& (forall|i: int| 0 <= i < c.comments.len() ==> is_ident_text(c.comments[i]))
}

/// Serialize a record to the configuration grammar.
///
/// One line per populated scalar field, then, when any comment entries are
/// present, the `comments:` header and one line per entry, in order.
#[verifier::loop_isolation(false)]
pub fn render(config: &ConfigFile) -> (r: String)
    ensures
        r@ == spec_render(config@),
{
    let ghost c = config@;
    let mut out = String::new();
    proof {
        reveal_strlit("editor: ");
        reveal_strlit("github_token: ");
        reveal_strlit("pr_url: ");
        reveal_strlit("comments:\n");
        reveal_strlit("editor");
        reveal_strlit("github_token");
        reveal_strlit("pr_url");
        reveal_strlit("comments");
        reveal_strlit("\n");
    }
    if !config.editor_command.as_str().is_empty() {
        out.append("editor: ");
        out.append(config.editor_command.as_str());
        out.append("\n");
    }
    proof {
        assert(out@ =~= scalar_line("editor"@, c.editor_command));
    }
    let ghost p1 = out@;
    if !config.github_token.as_str().is_empty() {
        out.append("github_token: ");
        out.append(config.github_token.as_str());
        out.append("\n");
    }
    proof {
        assert(out@ =~= p1 + scalar_line("github_token"@, c.github_token));
    }
    let ghost p2 = out@;
    if !config.pr_url.as_str().is_empty() {
        out.append("pr_url: ");
        out.append(config.pr_url.as_str());
        out.append("\n");
    }
    proof {
        assert(out@ =~= p2 + scalar_line("pr_url"@, c.pr_url));
    }
    let ghost p3 = out@;
    if config.comments.len() > 0 {
        out.append("comments:\n");
        proof {
            assert(c.comments.skip(0) =~= c.comments);
            assert(out@ + entry_lines(c.comments.skip(0)) =~= p3 + comments_block(c.comments));
        }
        let mut k: usize = 0;
        while k < config.comments.len()
            invariant
                k <= config.comments.len(),
                c == config@,
                out@ + entry_lines(c.comments.skip(k as int)) == p3 + comments_block(c.comments),
            decreases config.comments.len() - k,
        {
            let ghost before = out@;
            let entry = &config.comments[k];
            out.append(entry.as_str());
            out.append("\n");
            proof {
                assert(c.comments[k as int] == config.comments@[k as int]@);
                assert(c.comments.skip(k as int)[0] == c.comments[k as int]);
                assert(c.comments.skip(k as int).skip(1) =~= c.comments.skip(k as int + 1));
                assert(before + entry_lines(c.comments.skip(k as int)) =~= out@ + entry_lines(
                    c.comments.skip(k as int + 1),
                ));
            }
            k = k + 1;
        }
        proof {
            assert(c.comments.skip(config.comments.len() as int).len() == 0);
            assert(out@ + Seq::<char>::empty() =~= out@);
        }
    }
    proof {
        assert(out@ =~= spec_render(c));
    }
    out
}

/// The tokens one scalar section contributes: none for a default field.
pub open spec fn scalar_tokens(key: Seq<char>, v: Seq<char>) -> Seq<TokenModel> {
    if v.len() == 0 {
        Seq::empty()
    } else {
        seq![
            TokenModel::Identifier(key),
            TokenModel::Colon,
            TokenModel::Space,
            TokenModel::Identifier(v),
            TokenModel::NewLine,
        ]
    }
}

/// The tokens of the list section's body: one identifier and one newline per
/// entry.
pub open spec fn entry_tokens(cs: Seq<Seq<char>>) -> Seq<TokenModel>
    decreases cs.len(),
{
    if cs.len() == 0 {
        Seq::empty()
    } else {
        seq![TokenModel::Identifier(cs[0]), TokenModel::NewLine] + entry_tokens(cs.skip(1))
    }
}

/// The tokens of the whole list section.
pub open spec fn comments_tokens(cs: Seq<Seq<char>>) -> Seq<TokenModel> {
    if cs.len() == 0 {
        Seq::empty()
    } else {
        seq![TokenModel::Identifier("comments"@), TokenModel::Colon, TokenModel::NewLine]
            + entry_tokens(cs)
    }
}

/// The tokens of a whole rendered record.
pub open spec fn render_tokens(c: ConfigModel) -> Seq<TokenModel> {
    scalar_tokens("editor"@, c.editor_command) + scalar_tokens("github_token"@, c.github_token)
        + scalar_tokens("pr_url"@, c.pr_url) + comments_tokens(c.comments)
}

/// The four section keys are identifier texts and pairwise distinct.
proof fn lemma_keys()
    ensures
        is_ident_text("editor"@),
        is_ident_text("github_token"@),
        is_ident_text("pr_url"@),
        is_ident_text("comments"@),
        "editor"@ != "github_token"@,
        "editor"@ != "pr_url"@,
        "editor"@ != "comments"@,
        "github_token"@ != "pr_url"@,
        "github_token"@ != "comments"@,
        "pr_url"@ != "comments"@,
{
    reveal_strlit("editor");
    reveal_strlit("github_token");
    reveal_strlit("pr_url");
    reveal_strlit("comments");
    lemma_key_text("editor"@);
    lemma_key_text("github_token"@);
    lemma_key_text("pr_url"@);
    lemma_key_text("comments"@);
    assert("editor"@[0] != "pr_url"@[0]);
}

/// A scheme-free run of identifier characters is one identifier text.
proof fn lemma_key_text(s: Seq<char>)
    requires
        s.len() > 0,
        forall|q: int| 0 <= q < s.len() ==> is_ident_char(s[q]),
        scheme_len(s) == 0,
    ensures
        is_ident_text(s),
{
    lemma_run_all(s);
    assert(s.skip(0) =~= s);
}

/// Lexing one scalar line in front of further text yields the section's five
/// tokens, then the tokens of the rest.
proof fn lemma_tokenize_scalar_line(key: Seq<char>, v: Seq<char>, rest: Seq<char>)
    requires
        is_ident_text(key),
        v.len() > 0 ==> is_ident_text(v),
    ensures
        spec_tokenize(scalar_line(key, v) + rest) == scalar_tokens(key, v) + spec_tokenize(rest),
{
    if v.len() == 0 {
        assert(scalar_line(key, v) + rest =~= rest);
        assert(scalar_tokens(key, v) + spec_tokenize(rest) =~= spec_tokenize(rest));
    } else {
        let b3 = v + (seq!['\n'] + rest);
        let b2 = seq![' '] + b3;
        let b1 = seq![':'] + b2;
        assert(scalar_line(key, v) + rest =~= key + b1);
        assert(ident_boundary(b1));
        lemma_tokenize_ident_boundary(key, b1);
        assert(b1[0] == ':');
        assert(b1.skip(1) =~= b2);
        assert(spec_tokenize(b1) == seq![TokenModel::Colon] + spec_tokenize(b2));
        assert(b2[0] == ' ');
        assert(b2.skip(1) =~= b3);
        assert(spec_tokenize(b2) == seq![TokenModel::Space] + spec_tokenize(b3));
        assert(ident_boundary(seq!['\n'] + rest));
        lemma_tokenize_ident_boundary(v, seq!['\n'] + rest);
        assert((seq!['\n'] + rest)[0] == '\n');
        assert((seq!['\n'] + rest).skip(1) =~= rest);
        assert(spec_tokenize(seq!['\n'] + rest) == seq![TokenModel::NewLine] + spec_tokenize(
            rest,
        ));
        assert(seq![TokenModel::Identifier(key)] + (seq![TokenModel::Colon] + (seq![
            TokenModel::Space,
        ] + (seq![TokenModel::Identifier(v)] + (seq![TokenModel::NewLine] + spec_tokenize(rest)))))
            =~= scalar_tokens(key, v) + spec_tokenize(rest));
    }
}

/// Lexing the body lines of the list section yields its entry tokens.
proof fn lemma_tokenize_entry_lines(cs: Seq<Seq<char>>)
    requires
        forall|i: int| 0 <= i < cs.len() ==> is_ident_text(cs[i]),
    ensures
        spec_tokenize(entry_lines(cs)) == entry_tokens(cs),
    decreases cs.len(),
{
    if cs.len() == 0 {
        assert(spec_tokenize(entry_lines(cs)) =~= entry_tokens(cs));
    } else {
        assert forall|i: int| 0 <= i < cs.skip(1).len() implies is_ident_text(cs.skip(1)[i]) by {
            assert(cs.skip(1)[i] == cs[i + 1]);
        }
        lemma_tokenize_entry_lines(cs.skip(1));
        let nl_rest = seq!['\n'] + entry_lines(cs.skip(1));
        assert(entry_lines(cs) =~= cs[0] + nl_rest);
        assert(ident_boundary(nl_rest));
        lemma_tokenize_ident_boundary(cs[0], nl_rest);
        assert(nl_rest[0] == '\n');
        assert(nl_rest.skip(1) =~= entry_lines(cs.skip(1)));
        assert(spec_tokenize(nl_rest) == seq![TokenModel::NewLine] + entry_tokens(cs.skip(1)));
        assert(seq![TokenModel::Identifier(cs[0])] + (seq![TokenModel::NewLine] + entry_tokens(
            cs.skip(1),
        )) =~= entry_tokens(cs));
    }
}

/// Lexing a rendered record yields exactly its section tokens.
proof fn lemma_tokenize_render(c: ConfigModel)
    requires
        wf_model(c),
    ensures
        spec_tokenize(spec_render(c)) == render_tokens(c),
{
    lemma_keys();
    let l2 = scalar_line("github_token"@, c.github_token);
    let l3 = scalar_line("pr_url"@, c.pr_url);
    let cb = comments_block(c.comments);
    if c.comments.len() == 0 {
        assert(spec_tokenize(cb) =~= comments_tokens(c.comments));
    } else {
        let body = seq![':'] + (seq!['\n'] + entry_lines(c.comments));
        assert(cb =~= "comments"@ + body);
        assert(ident_boundary(body));
        lemma_tokenize_ident_boundary("comments"@, body);
        assert(body[0] == ':');
        assert(body.skip(1) =~= seq!['\n'] + entry_lines(c.comments));
        assert(spec_tokenize(body) == seq![TokenModel::Colon] + spec_tokenize(
            seq!['\n'] + entry_lines(c.comments),
        ));
        assert((seq!['\n'] + entry_lines(c.comments))[0] == '\n');
        assert((seq!['\n'] + entry_lines(c.comments)).skip(1) =~= entry_lines(c.comments));
        lemma_tokenize_entry_lines(c.comments);
        assert(spec_tokenize(seq!['\n'] + entry_lines(c.comments)) == seq![TokenModel::NewLine]
            + entry_tokens(c.comments));
        assert(seq![TokenModel::Identifier("comments"@)] + (seq![TokenModel::Colon] + (seq![
            TokenModel::NewLine,
        ] + entry_tokens(c.comments))) =~= comments_tokens(c.comments));
    }
    lemma_tokenize_scalar_line("pr_url"@, c.pr_url, cb);
    lemma_tokenize_scalar_line("github_token"@, c.github_token, l3 + cb);
    lemma_tokenize_scalar_line("editor"@, c.editor_command, l2 + (l3 + cb));
    assert(spec_render(c) =~= scalar_line("editor"@, c.editor_command) + (l2 + (l3 + cb)));
    assert(scalar_tokens("editor"@, c.editor_command) + (scalar_tokens(
        "github_token"@,
        c.github_token,
    ) + (scalar_tokens("pr_url"@, c.pr_url) + comments_tokens(c.comments))) =~= render_tokens(c));
}

/// A scalar stage on its own section tokens binds the value and leaves the
/// rest; on a default field it is skipped, provided the rest does not begin
/// with this section's key.
proof fn lemma_after_scalar_tokens(
    key: Seq<char>,
    v: Seq<char>,
    rest: Seq<TokenModel>,
    section: Section,
)
    requires
        rest.len() > 0 ==> rest[0] != TokenModel::Identifier(key),
    ensures
        after_scalar(scalar_tokens(key, v) + rest, key, section) == Ok::<
            (Seq<char>, Seq<TokenModel>),
            ParseError,
        >((v, rest)),
{
    let toks = scalar_tokens(key, v) + rest;
    if v.len() == 0 {
        assert(toks =~= rest);
        assert(v =~= Seq::<char>::empty());
    } else {
        assert(toks[0] == TokenModel::Identifier(key));
        assert(toks[1] is Colon);
        assert(toks[2] is Space);
        assert(toks[3] is Identifier);
        assert(toks[4] is NewLine);
        assert(toks.skip(5) =~= rest);
    }
}

/// The body loop on entry tokens returns exactly the entries, in order.
proof fn lemma_comment_entries_tokens(cs: Seq<Seq<char>>)
    ensures
        comment_entries(entry_tokens(cs)) == Ok::<Seq<Seq<char>>, ParseError>(cs),
    decreases cs.len(),
{
    if cs.len() == 0 {
        assert(cs =~= Seq::<Seq<char>>::empty());
    } else {
        lemma_comment_entries_tokens(cs.skip(1));
        let toks = entry_tokens(cs);
        assert(toks[0] == TokenModel::Identifier(cs[0]));
        assert(toks[1] is NewLine);
        assert(toks.skip(2) =~= entry_tokens(cs.skip(1)));
        assert(seq![cs[0]] + cs.skip(1) =~= cs);
    }
}

/// The list stage on its own section tokens returns exactly the entries.
proof fn lemma_comments_section_tokens(cs: Seq<Seq<char>>)
    ensures
        comments_section(comments_tokens(cs)) == Ok::<Seq<Seq<char>>, ParseError>(cs),
{
    let toks = comments_tokens(cs);
    if cs.len() == 0 {
        assert(cs =~= Seq::<Seq<char>>::empty());
    } else {
        assert(toks[0] == TokenModel::Identifier("comments"@));
        assert(toks[1] is Colon);
        assert(toks[2] is NewLine);
        assert(toks.skip(3) =~= entry_tokens(cs));
        lemma_comment_entries_tokens(cs);
    }
}

/// Parsing the section tokens of a record yields that record.
#[verifier::rlimit(100)]
proof fn lemma_parse_render_tokens(c: ConfigModel)
    ensures
        spec_parse(render_tokens(c)) == Ok::<ConfigModel, ParseError>(c),
{
    lemma_keys();
    let t1 = scalar_tokens("editor"@, c.editor_command);
    let t2 = scalar_tokens("github_token"@, c.github_token);
    let t3 = scalar_tokens("pr_url"@, c.pr_url);
    let tc = comments_tokens(c.comments);
    let rest1 = t2 + (t3 + tc);
    let rest2 = t3 + tc;
    assert(render_tokens(c) =~= t1 + rest1);
    if rest1.len() > 0 {
        if c.github_token.len() > 0 {
            assert(rest1[0] == TokenModel::Identifier("github_token"@));
        } else if c.pr_url.len() > 0 {
            assert(rest1[0] == TokenModel::Identifier("pr_url"@));
        } else {
            assert(rest1[0] == TokenModel::Identifier("comments"@));
        }
    }
    lemma_after_scalar_tokens("editor"@, c.editor_command, rest1, Section::Editor);
    if rest2.len() > 0 {
        if c.pr_url.len() > 0 {
            assert(rest2[0] == TokenModel::Identifier("pr_url"@));
        } else {
            assert(rest2[0] == TokenModel::Identifier("comments"@));
        }
    }
    assert(rest1 =~= t2 + rest2);
    lemma_after_scalar_tokens("github_token"@, c.github_token, rest2, Section::GithubToken);
    if tc.len() > 0 {
        assert(tc[0] == TokenModel::Identifier("comments"@));
    }
    lemma_after_scalar_tokens("pr_url"@, c.pr_url, tc, Section::PrUrl);
    lemma_comments_section_tokens(c.comments);
}

/// Round trip: serializing a record whose populated fields are identifier
/// texts, then lexing and parsing the result, yields the identical record.
/// In particular, a text holding any subset of the four sections parses
/// without error, and every omitted field keeps its default.
pub proof fn lemma_render_parse_round_trip(c: ConfigModel)
    requires
        wf_model(c),
    ensures
        spec_parse(spec_tokenize(spec_render(c))) == Ok::<ConfigModel, ParseError>(c),
{
    lemma_tokenize_render(c);
    lemma_parse_render_tokens(c);
}

/// The empty text parses to the all-default record, with no error.
pub proof fn lemma_empty_parses_to_defaults()
    ensures
        spec_parse(spec_tokenize(Seq::<char>::empty())) == Ok::<ConfigModel, ParseError>(
            default_model(),
        ),
{
    lemma_render_parse_round_trip(default_model());
    assert(spec_render(default_model()) =~= Seq::<char>::empty());
}

/// One physical line of the list section's body: an identifier entry, or a
/// `#`-note whose text (after the `#`) holds no newline.
pub enum CommentLine {
    Entry(Seq<char>),
    Note(Seq<char>),
}

/// The text of one body line.
pub open spec fn line_text(l: CommentLine) -> Seq<char> {
    match l {
        CommentLine::Entry(e) => e + seq!['\n'],
        CommentLine::Note(d) => seq!['#'] + d + seq!['\n'],
    }
}

/// The text of a whole body, line after line.
pub open spec fn lines_text(ls: Seq<CommentLine>) -> Seq<char>
    decreases ls.len(),
{
    if ls.len() == 0 {
        Seq::empty()
    } else {
        line_text(ls[0]) + lines_text(ls.skip(1))
    }
}

/// A line the grammar admits: an entry that is one identifier text, or a
/// note free of newlines.
pub open spec fn line_ok(l: CommentLine) -> bool {
    match l {
        CommentLine::Entry(e) => is_ident_text(e),
        CommentLine::Note(d) => forall|q: int| 0 <= q < d.len() ==> d[q] != '\n',
    }
}

/// The entry texts of a body, in line order, notes dropped.
pub open spec fn entries_of(ls: Seq<CommentLine>) -> Seq<Seq<char>>
    decreases ls.len(),
{
    if ls.len() == 0 {
        Seq::empty()
    } else {
        match ls[0] {
            CommentLine::Entry(e) => seq![e] + entries_of(ls.skip(1)),
            CommentLine::Note(_) => entries_of(ls.skip(1)),
        }
    }
}

/// The tokens of a whole body.
pub open spec fn line_tokens(ls: Seq<CommentLine>) -> Seq<TokenModel>
    decreases ls.len(),
{
    if ls.len() == 0 {
        Seq::empty()
    } else {
        (match ls[0] {
            CommentLine::Entry(e) => seq![TokenModel::Identifier(e), TokenModel::NewLine],
            CommentLine::Note(_) => seq![TokenModel::Comment, TokenModel::NewLine],
        }) + line_tokens(ls.skip(1))
    }
}

/// Lexing a body yields its line tokens.
proof fn lemma_tokenize_lines(ls: Seq<CommentLine>)
    requires
        forall|i: int| 0 <= i < ls.len() ==> line_ok(ls[i]),
    ensures
        spec_tokenize(lines_text(ls)) == line_tokens(ls),
    decreases ls.len(),
{
    if ls.len() == 0 {
        assert(spec_tokenize(lines_text(ls)) =~= line_tokens(ls));
    } else {
        assert forall|i: int| 0 <= i < ls.skip(1).len() implies line_ok(ls.skip(1)[i]) by {
            assert(ls.skip(1)[i] == ls[i + 1]);
        }
        lemma_tokenize_lines(ls.skip(1));
        match ls[0] {
            CommentLine::Entry(e) => {
                let nl_rest = seq!['\n'] + lines_text(ls.skip(1));
                assert(lines_text(ls) =~= e + nl_rest);
                assert(ident_boundary(nl_rest));
                lemma_tokenize_ident_boundary(e, nl_rest);
                assert(nl_rest[0] == '\n');
                assert(nl_rest.skip(1) =~= lines_text(ls.skip(1)));
                assert(spec_tokenize(nl_rest) == seq![TokenModel::NewLine] + line_tokens(
                    ls.skip(1),
                ));
                assert(seq![TokenModel::Identifier(e)] + (seq![TokenModel::NewLine] + line_tokens(
                    ls.skip(1),
                )) =~= line_tokens(ls));
            },
            CommentLine::Note(d) => {
                assert(lines_text(ls) =~= seq!['#'] + d + seq!['\n'] + lines_text(ls.skip(1)));
                lemma_tokenize_comment_line(d, lines_text(ls.skip(1)));
                assert(seq![TokenModel::Comment, TokenModel::NewLine] + line_tokens(ls.skip(1))
                    =~= line_tokens(ls));
            },
        }
    }
}

/// The body loop keeps exactly the entries, in order, and drops the notes.
proof fn lemma_comment_entries_lines(ls: Seq<CommentLine>)
    ensures
        comment_entries(line_tokens(ls)) == Ok::<Seq<Seq<char>>, ParseError>(entries_of(ls)),
    decreases ls.len(),
{
    if ls.len() == 0 {
    } else {
        lemma_comment_entries_lines(ls.skip(1));
        let toks = line_tokens(ls);
        match ls[0] {
            CommentLine::Entry(e) => {
                assert(toks[0] == TokenModel::Identifier(e));
                assert(toks[1] is NewLine);
                assert(toks.skip(2) =~= line_tokens(ls.skip(1)));
            },
            CommentLine::Note(_) => {
                assert(toks[0] is Comment);
                assert(toks.skip(1)[0] is NewLine);
                assert(nl_skip_len(toks.skip(1)) == 1);
                assert(nl_skip_len(toks) == 2);
                assert(toks.skip(2) =~= line_tokens(ls.skip(1)));
            },
        }
    }
}

/// Comment entries come out in file order, and `#`-lines never appear in the
/// output, whatever they hold: parsing a `comments` section whose body mixes
/// entry lines and `#`-note lines yields exactly the entry texts, in line
/// order, and default values for every scalar field.
pub proof fn lemma_comment_lines_law(ls: Seq<CommentLine>)
    requires
        forall|i: int| 0 <= i < ls.len() ==> line_ok(ls[i]),
    ensures
        spec_parse(spec_tokenize("comments"@ + seq![':', '\n'] + lines_text(ls))) == Ok::<
            ConfigModel,
            ParseError,
        >(
            ConfigModel {
                editor_command: Seq::empty(),
                github_token: Seq::empty(),
                pr_url: Seq::empty(),
                comments: entries_of(ls),
            },
        ),
{
    lemma_keys();
    let body = seq![':'] + (seq!['\n'] + lines_text(ls));
    let text = "comments"@ + seq![':', '\n'] + lines_text(ls);
    assert(text =~= "comments"@ + body);
    assert(ident_boundary(body));
    lemma_tokenize_ident_boundary("comments"@, body);
    assert(body[0] == ':');
    assert(body.skip(1) =~= seq!['\n'] + lines_text(ls));
    assert(spec_tokenize(body) == seq![TokenModel::Colon] + spec_tokenize(
        seq!['\n'] + lines_text(ls),
    ));
    assert((seq!['\n'] + lines_text(ls))[0] == '\n');
    assert((seq!['\n'] + lines_text(ls)).skip(1) =~= lines_text(ls));
    lemma_tokenize_lines(ls);
    assert(spec_tokenize(seq!['\n'] + lines_text(ls)) == seq![TokenModel::NewLine] + line_tokens(
        ls,
    ));
    let toks = spec_tokenize(text);
    assert(toks =~= seq![
        TokenModel::Identifier("comments"@),
        TokenModel::Colon,
        TokenModel::NewLine,
    ] + line_tokens(ls));
    assert(toks[0] == TokenModel::Identifier("comments"@));
    assert(after_scalar(toks, "editor"@, Section::Editor) == Ok::<
        (Seq<char>, Seq<TokenModel>),
        ParseError,
    >((Seq::empty(), toks)));
    assert(after_scalar(toks, "github_token"@, Section::GithubToken) == Ok::<
        (Seq<char>, Seq<TokenModel>),
        ParseError,
    >((Seq::empty(), toks)));
    assert(after_scalar(toks, "pr_url"@, Section::PrUrl) == Ok::<
        (Seq<char>, Seq<TokenModel>),
        ParseError,
    >((Seq::empty(), toks)));
    assert(toks[1] is Colon);
    assert(toks[2] is NewLine);
    assert(toks.skip(3) =~= line_tokens(ls));
    lemma_comment_entries_lines(ls);
}

} // verus!
