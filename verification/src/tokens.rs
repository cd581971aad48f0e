//! The texts of queries that the parser of the query engine does not survive.
use vstd::prelude::*;

use datafusion::sql::sqlparser::dialect::GenericDialect;
use datafusion::sql::sqlparser::tokenizer::{Token as ParserToken, Tokenizer};

use crate::text::same;

verus! {

/// A token of a query, as far as the parser's failures go.
#[derive(Debug)]
pub enum SqlToken {
    /// A word, by the keyword that it is; any other name, quoted or not, is `NoKeyword`.
    Word(String),
    /// A text in quotes.
    Quoted,
    Period,
    Colon,
    Semicolon,
    /// A closing parenthesis.
    Close,
    /// White space or a comment.
    Space,
    Other,
}

/// The meaning of a [`SqlToken`].
pub ghost enum Token {
    Word(Seq<char>),
    Quoted,
    Period,
    Colon,
    Semicolon,
    Close,
    Space,
    Other,
}

impl View for SqlToken {
    type V = Token;

    open spec fn view(&self) -> Token {
        match self {
            SqlToken::Word(name) => Token::Word(name@),
            SqlToken::Quoted => Token::Quoted,
            SqlToken::Period => Token::Period,
            SqlToken::Colon => Token::Colon,
            SqlToken::Semicolon => Token::Semicolon,
            SqlToken::Close => Token::Close,
            SqlToken::Space => Token::Space,
            SqlToken::Other => Token::Other,
        }
    }
}

/// The meanings of some tokens.
pub open spec fn tokens_view(tokens: Seq<SqlToken>) -> Seq<Token> {
    Seq::new(tokens.len(), |i: int| tokens[i]@)
}

/// The tokens of a query; none where it cannot be cut into tokens.
pub uninterp spec fn sql_tokens(sql: Seq<char>) -> Option<Seq<Token>>;

/// `Tokenizer::tokenize` of sqlparser in the generic dialect: the tokens of a query, each
/// word by the keyword that the tokenizer takes it for. The result is a function of the
/// text alone.
#[verifier::external_body]
fn cut(sql: &str) -> (tokens: Option<Vec<SqlToken>>)
    ensures
        match (tokens, sql_tokens(sql@)) {
            (Some(tokens), Some(expected)) => tokens_view(tokens@) == expected,
            (None, None) => true,
            _ => false,
        },
{
    let tokens = Tokenizer::new(&GenericDialect {}, sql).tokenize().ok()?;
    Some(tokens.into_iter().map(|token| match token {
        ParserToken::Word(word) => SqlToken::Word(format!("{:?}", word.keyword)),
        ParserToken::SingleQuotedString(_) => SqlToken::Quoted,
        ParserToken::DoubleQuotedString(_) => SqlToken::Quoted,
        ParserToken::Period => SqlToken::Period,
        ParserToken::Colon => SqlToken::Colon,
        ParserToken::SemiColon => SqlToken::Semicolon,
        ParserToken::RParen => SqlToken::Close,
        ParserToken::Whitespace(_) => SqlToken::Space,
        _ => SqlToken::Other,
    }).collect())
}

/// The tokens that are neither white space nor comments.
pub open spec fn visible(tokens: Seq<Token>) -> Seq<Token>
    decreases tokens.len(),
{
    if tokens.len() == 0 {
        Seq::empty()
    } else if tokens.last() is Space {
        visible(tokens.drop_last())
    } else {
        visible(tokens.drop_last()).push(tokens.last())
    }
}

/// Whether a keyword stands at a place.
pub open spec fn word_at(tokens: Seq<Token>, at: int, name: Seq<char>) -> bool {
    0 <= at < tokens.len() && tokens[at] == Token::Word(name)
}

/// Whether a token stands at a place.
pub open spec fn token_at(tokens: Seq<Token>, at: int, token: Token) -> bool {
    0 <= at < tokens.len() && tokens[at] == token
}

/// Whether a name without periods stands at a place: any word, or a text in quotes.
pub open spec fn part_at(tokens: Seq<Token>, at: int) -> bool {
    0 <= at < tokens.len() && (tokens[at] is Word || tokens[at] is Quoted)
}

/// Whether a name stands at a place: parts with periods between them.
pub open spec fn name_at(tokens: Seq<Token>, at: int) -> bool
    decreases tokens.len() - at,
{
    part_at(tokens, at) && (token_at(tokens, at + 1, Token::Period) ==> name_at(tokens, at + 2))
}

/// Whether a place can be in the body of a loop or of a trigger.
pub open spec fn in_body(tokens: Seq<Token>, at: int) -> bool
    decreases at,
{
    at > 0 && (word_at(tokens, at - 1, "WHILE"@) || word_at(tokens, at - 1, "TRIGGER"@) || in_body(
        tokens,
        at - 1,
    ))
}

/// Whether a statement may begin at a place: at the start or behind a semicolon, behind a
/// word that a statement follows, behind the options of `EXPLAIN`, or anywhere in the body
/// of a loop or of a trigger.
pub open spec fn may_begin(tokens: Seq<Token>, at: int) -> bool {
    ||| at == 0
    ||| token_at(tokens, at - 1, Token::Semicolon)
    ||| token_at(tokens, at - 1, Token::Close)
    ||| word_at(tokens, at - 1, "THEN"@)
    ||| word_at(tokens, at - 1, "ELSE"@)
    ||| word_at(tokens, at - 1, "BEGIN"@)
    ||| word_at(tokens, at - 1, "AS"@)
    ||| word_at(tokens, at - 1, "EXPLAIN"@)
    ||| word_at(tokens, at - 1, "DESC"@)
    ||| word_at(tokens, at - 1, "DESCRIBE"@)
    ||| word_at(tokens, at - 1, "PLAN"@)
    ||| word_at(tokens, at - 1, "ESTIMATE"@)
    ||| word_at(tokens, at - 1, "ANALYZE"@)
    ||| word_at(tokens, at - 1, "VERBOSE"@)
    ||| word_at(tokens, at - 1, "TEXT"@)
    ||| word_at(tokens, at - 1, "GRAPHVIZ"@)
    ||| word_at(tokens, at - 1, "JSON"@)
    ||| word_at(tokens, at - 1, "TREE"@)
    ||| in_body(tokens, at)
}

/// Whether relay logs are flushed for a channel without a name.
pub open spec fn flushes_nameless(tokens: Seq<Token>, at: int) -> bool {
    let local = word_at(tokens, at + 1, "NO_WRITE_TO_BINLOG"@) || word_at(
        tokens,
        at + 1,
        "LOCAL"@,
    );
    let next = if local {
        at + 2
    } else {
        at + 1
    };
    &&& word_at(tokens, at, "FLUSH"@)
    &&& word_at(tokens, next, "RELAY"@)
    &&& word_at(tokens, next + 1, "LOGS"@)
    &&& word_at(tokens, next + 2, "FOR"@)
    &&& word_at(tokens, next + 3, "CHANNEL"@)
    &&& !name_at(tokens, next + 4)
}

/// Whether an authorization is set that is not said to be that of the session.
pub open spec fn sets_nowhere(tokens: Seq<Token>, at: int) -> bool {
    &&& word_at(tokens, at, "SET"@)
    &&& {
        ||| word_at(tokens, at + 1, "AUTHORIZATION"@) && part_at(tokens, at + 2)
        ||| word_at(tokens, at + 1, "HIVEVAR"@) && token_at(tokens, at + 2, Token::Colon)
            && word_at(tokens, at + 3, "AUTHORIZATION"@) && part_at(tokens, at + 4)
    }
}

/// Whether rows are limited by groups without a limit, which cannot be printed.
pub open spec fn limits_nothing(tokens: Seq<Token>, at: int) -> bool {
    word_at(tokens, at, "LIMIT"@) && word_at(tokens, at + 1, "ALL"@) && word_at(
        tokens,
        at + 2,
        "BY"@,
    )
}

/// Whether something begins at a place that the parser, or the printer of its statements,
/// does not survive.
pub open spec fn breaks_at(tokens: Seq<Token>, at: int) -> bool {
    ||| may_begin(tokens, at) && (flushes_nameless(tokens, at) || sets_nowhere(tokens, at))
    ||| limits_nothing(tokens, at)
}

/// Whether the parser survives some tokens.
pub open spec fn survives(tokens: Option<Seq<Token>>) -> bool {
    match tokens {
        Some(tokens) => {
            let all = visible(tokens);
            forall|at: int| 0 <= at < all.len() ==> !#[trigger] breaks_at(all, at)
        },
        None => true,
    }
}

/// Whether the parser survives a query.
pub open spec fn parsable(sql: Seq<char>) -> bool {
    survives(sql_tokens(sql))
}

/// Whether a keyword stands some steps behind a place.
fn is_word(tokens: &Vec<SqlToken>, from: usize, step: usize, name: &str) -> (yes: bool)
    requires
        from <= tokens@.len(),
    ensures
        yes == word_at(tokens_view(tokens@), from + step, name@),
{
    if step >= tokens.len() - from {
        return false;
    }
    assert(tokens_view(tokens@)[from + step] == tokens@[from + step]@);
    match &tokens[from + step] {
        SqlToken::Word(word) => same(word.as_str(), name),
        _ => false,
    }
}

/// Whether a name without periods stands some steps behind a place.
fn is_part(tokens: &Vec<SqlToken>, from: usize, step: usize) -> (yes: bool)
    requires
        from <= tokens@.len(),
    ensures
        yes == part_at(tokens_view(tokens@), from + step),
{
    if step >= tokens.len() - from {
        return false;
    }
    assert(tokens_view(tokens@)[from + step] == tokens@[from + step]@);
    match &tokens[from + step] {
        SqlToken::Word(_) | SqlToken::Quoted => true,
        _ => false,
    }
}

/// Whether a name stands at a place.
fn is_name(tokens: &Vec<SqlToken>, from: usize) -> (yes: bool)
    requires
        from <= tokens@.len(),
    ensures
        yes == name_at(tokens_view(tokens@), from as int),
    decreases tokens@.len() - from,
{
    if !is_part(tokens, from, 0) {
        return false;
    }
    if tokens.len() - from < 2 {
        return true;
    }
    assert(tokens_view(tokens@)[from + 1] == tokens@[from + 1]@);
    match &tokens[from + 1] {
        SqlToken::Period => is_name(tokens, from + 2),
        _ => true,
    }
}

/// Whether a statement may begin behind a token.
fn may_follow(token: &SqlToken) -> (yes: bool)
    ensures
        yes == match token@ {
            Token::Semicolon => true,
            Token::Close => true,
            Token::Word(name) => {
                ||| name == "THEN"@
                ||| name == "ELSE"@
                ||| name == "BEGIN"@
                ||| name == "AS"@
                ||| name == "EXPLAIN"@
                ||| name == "DESC"@
                ||| name == "DESCRIBE"@
                ||| name == "PLAN"@
                ||| name == "ESTIMATE"@
                ||| name == "ANALYZE"@
                ||| name == "VERBOSE"@
                ||| name == "TEXT"@
                ||| name == "GRAPHVIZ"@
                ||| name == "JSON"@
                ||| name == "TREE"@
            },
            _ => false,
        },
{
    match token {
        SqlToken::Semicolon | SqlToken::Close => true,
        SqlToken::Word(name) => {
            let name = name.as_str();
            same(name, "THEN") || same(name, "ELSE") || same(name, "BEGIN") || same(name, "AS")
                || same(name, "EXPLAIN") || same(name, "DESC") || same(name, "DESCRIBE") || same(
                name,
                "PLAN",
            ) || same(name, "ESTIMATE") || same(name, "ANALYZE") || same(name, "VERBOSE") || same(
                name,
                "TEXT",
            ) || same(name, "GRAPHVIZ") || same(name, "JSON") || same(name, "TREE")
        },
        _ => false,
    }
}

/// Whether relay logs are flushed for a channel without a name.
fn does_flush_nameless(tokens: &Vec<SqlToken>, at: usize) -> (yes: bool)
    requires
        at < tokens@.len(),
    ensures
        yes == flushes_nameless(tokens_view(tokens@), at as int),
{
    if !is_word(tokens, at, 0, "FLUSH") {
        return false;
    }
    let local = is_word(tokens, at, 1, "NO_WRITE_TO_BINLOG") || is_word(tokens, at, 1, "LOCAL");
    let step: usize = if local {
        2
    } else {
        1
    };
    tokens.len() - at > step + 3 && is_word(tokens, at, step, "RELAY") && is_word(
        tokens,
        at,
        step + 1,
        "LOGS",
    ) && is_word(tokens, at, step + 2, "FOR") && is_word(tokens, at, step + 3, "CHANNEL")
        && !is_name(tokens, at + step + 4)
}

/// Whether an authorization is set that is not said to be that of the session.
fn does_set_nowhere(tokens: &Vec<SqlToken>, at: usize) -> (yes: bool)
    requires
        at < tokens@.len(),
    ensures
        yes == sets_nowhere(tokens_view(tokens@), at as int),
{
    if !is_word(tokens, at, 0, "SET") {
        return false;
    }
    if is_word(tokens, at, 1, "AUTHORIZATION") && is_part(tokens, at, 2) {
        return true;
    }
    let colon = if tokens.len() - at > 2 {
        assert(tokens_view(tokens@)[at + 2] == tokens@[at + 2]@);
        match &tokens[at + 2] {
            SqlToken::Colon => true,
            _ => false,
        }
    } else {
        false
    };
    colon && is_word(tokens, at, 1, "HIVEVAR") && is_word(tokens, at, 3, "AUTHORIZATION")
        && is_part(tokens, at, 4)
}

/// The tokens that are neither white space nor comments.
fn without_spaces(tokens: Vec<SqlToken>) -> (rest: Vec<SqlToken>)
    ensures
        tokens_view(rest@) == visible(tokens_view(tokens@)),
{
    let ghost all = tokens_view(tokens@);
    let mut rest: Vec<SqlToken> = Vec::new();
    assert(all.take(0) =~= Seq::<Token>::empty());
    assert(tokens_view(rest@) =~= visible(all.take(0)));
    for token in iter: tokens
        invariant
            iter.seq() == tokens@,
            all == tokens_view(tokens@),
            tokens_view(rest@) == visible(all.take(iter.index() as int)),
    {
        let ghost before = tokens_view(rest@);
        proof {
            let at = iter.index() as int;
            assert(all.take(at + 1).drop_last() =~= all.take(at));
            assert(all.take(at + 1).last() == token@);
        }
        match token {
            SqlToken::Space => {},
            _ => {
                rest.push(token);
                assert(tokens_view(rest@) =~= before.push(token@));
            },
        }
    }
    assert(all.take(all.len() as int) =~= all);
    rest
}

/// Whether the parser survives a query.
pub fn is_parsable(sql: &str) -> (yes: bool)
    ensures
        yes == parsable(sql@),
{
    let tokens = match cut(sql) {
        Some(tokens) => without_spaces(tokens),
        None => {
            return true;
        },
    };
    let ghost all = tokens_view(tokens@);
    let mut anywhere = false;
    for at in 0..tokens.len()
        invariant
            all == tokens_view(tokens@),
            sql_tokens(sql@) matches Some(found) && visible(found) == all,
            anywhere == in_body(all, at as int),
            forall|i: int| 0 <= i < at ==> !#[trigger] breaks_at(all, i),
    {
        let follows = if at > 0 {
            assert(all[at - 1] == tokens@[at - 1]@);
            may_follow(&tokens[at - 1])
        } else {
            true
        };
        let begins = follows || anywhere;
        assert(begins == may_begin(all, at as int));
        let limits = is_word(&tokens, at, 0, "LIMIT") && is_word(&tokens, at, 1, "ALL") && is_word(
            &tokens,
            at,
            2,
            "BY",
        );
        if limits || begins && (does_flush_nameless(&tokens, at) || does_set_nowhere(&tokens, at)) {
            assert(breaks_at(all, at as int));
            return false;
        }
        let opens = is_word(&tokens, at, 0, "WHILE") || is_word(&tokens, at, 0, "TRIGGER");
        anywhere = anywhere || opens;
    }
    true
}

} // verus!
