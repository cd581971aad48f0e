//! What is filled into a call of one of the functions, told from its arguments.
use vstd::prelude::*;

use crate::contract::JevArgumentName;
use crate::sql::{
    all_filled, any_filled, defaults, filled, first_optional, given, gives, joined, looked_up,
    named_any, parameters, texts, Argument, Named,
};
use crate::text::{lower, lowered};
use crate::tokens::{breaks_at, in_body, name_at, part_at, survives, token_at, visible, Token};
use crate::udf_laws::four_functions_take_arguments;

verus! {

/// Capital letters of the Latin alphabet have their small letters; every other letter is left
/// as it is.
pub proof fn capitals_become_small(place: nat, letter: char)
    ensures
        place < 26 ==> lower((65 + place) as char) == (97 + place) as char,
        !(65 <= letter as nat <= 90) ==> lower(letter) == letter,
        lower(lower(letter)) == lower(letter),
{
    assert('A' as nat == 65 && 'Z' as nat == 90);
    if place < 26 {
        let capital = (65 + place) as char;
        assert(capital as nat == 65 + place);
    }
    if 65 <= letter as nat <= 90 {
        let small = (letter as nat + 32) as char;
        assert(small as nat == letter as nat + 32);
    }
}

/// A function is named by one word: in any mix of capital and small letters, or in quotation
/// marks as it is. A name of several words names none.
pub proof fn functions_are_named_by_one_word(word: Seq<char>, parts: Seq<Option<Named>>)
    ensures
        looked_up(seq![Some(Named { value: word, quoted: false })]) == Some(lowered(word)),
        looked_up(seq![Some(Named { value: word, quoted: true })]) == Some(word),
        parts.len() != 1 ==> looked_up(parts) is None,
        lowered(word).len() == word.len(),
        forall|i: int| 0 <= i < word.len() ==> #[trigger] lowered(word)[i] == lower(word[i]),
{
}

/// How many arguments a function must have: a probability its state and instructions, a choice
/// or a score its criteria too, several questions the state and the questions.
pub open spec fn needed(name: Seq<char>) -> int {
    if name == "choice"@ || name == "score"@ {
        3
    } else {
        2
    }
}

/// How many arguments a function can have.
pub open spec fn possible(name: Seq<char>) -> int {
    if name == "ask"@ {
        3
    } else {
        4
    }
}

/// A call with its arguments in their places gets NULL for each that is left out at the end,
/// where it has those that it must have; else it is left as it is.
pub proof fn left_out_arguments_are_null(
    parts: Seq<Option<Named>>,
    name: Seq<char>,
    args: Seq<Argument>,
)
    requires
        looked_up(parts) == Some(name),
        name == "noul"@ || name == "choice"@ || name == "score"@ || name == "ask"@,
        forall|i: int| 0 <= i < args.len() ==> #[trigger] args[i] is Unnamed,
    ensures
        args.len() < needed(name) || args.len() >= possible(name) ==> filled(
            parts,
            Some((false, 0)),
            args,
        ).len() == 0,
        needed(name) <= args.len() < possible(name) ==> filled(parts, Some((false, 0)), args)
            == Seq::new((possible(name) - args.len()) as nat, |i: int| "NULL"@),
{
    four_functions_take_arguments(name);
    names_apart();
    let names = texts(parameters(name).unwrap());
    let first = first_optional(name, names.len() as int);
    assert(!named_any(args));
    if args.len() >= first {
        nulls_at_the_end(args, names, first, names.len() as int);
        let all = defaults(args, names, first, names.len() as int);
        if args.len() < possible(name) {
            assert(all =~= Seq::new((possible(name) - args.len()) as nat, |i: int| "NULL"@));
        }
    }
}

/// The names of the functions are different names.
proof fn names_apart()
    ensures
        "noul"@ != "choice"@,
        "noul"@ != "score"@,
        "noul"@ != "ask"@,
        "choice"@ != "score"@,
        "choice"@ != "ask"@,
        "score"@ != "ask"@,
{
    reveal_strlit("noul");
    reveal_strlit("choice");
    reveal_strlit("score");
    reveal_strlit("ask");
    assert("noul"@.len() == 4 && "choice"@.len() == 6 && "score"@.len() == 5 && "ask"@.len()
        == 3);
}

/// What is left out at the end is filled.
proof fn nulls_at_the_end(args: Seq<Argument>, names: Seq<Seq<char>>, first: int, count: int)
    requires
        0 <= first <= args.len(),
        count <= names.len(),
        forall|i: int| 0 <= i < args.len() ==> #[trigger] args[i] is Unnamed,
    ensures
        defaults(args, names, first, count).len() == (if count > args.len() {
            count - args.len()
        } else {
            0
        }),
        forall|i: int|
            0 <= i < defaults(args, names, first, count).len() ==> #[trigger] defaults(
                args,
                names,
                first,
                count,
            )[i] == "NULL"@,
    decreases count,
{
    if count > first && count > 0 {
        nulls_at_the_end(args, names, first, count - 1);
        if count - 1 < args.len() {
            assert(gives(args[count - 1], count - 1, count - 1, names[count - 1]));
        } else {
            assert(!given(args, count - 1, names[count - 1]));
        }
        assert(!named_any(args));
    }
}

/// Whether some argument stands in a place without a name, or under a name: in any mix of
/// capital and small letters, or in quotation marks as it is.
pub open spec fn provided(args: Seq<Argument>, index: int, name: Seq<char>) -> bool {
    exists|place: int|
        0 <= place < args.len() && match #[trigger] args[place] {
            Argument::Unnamed => place == index,
            Argument::Named(own) => own.value == name && own.quoted || lowered(own.value)
                == lowered(name) && !own.quoted,
            Argument::Computed => false,
        }
}

/// Whether a parameter of a function may be left out: its model, and the criteria of a
/// probability.
pub open spec fn may_be_left_out(name: Seq<char>, parameter: JevArgumentName) -> bool {
    parameter is Model || parameter is Criteria && name == "noul"@
}

/// A call that names its arguments gets NULL under the name of every one that may be left out
/// and is not there, once, and nothing else.
pub proof fn unnamed_arguments_are_filled_by_name(
    parts: Seq<Option<Named>>,
    name: Seq<char>,
    args: Seq<Argument>,
    index: int,
)
    requires
        looked_up(parts) == Some(name),
        parameters(name) is Some,
        exists|place: int| 0 <= place < args.len() && !(#[trigger] args[place] is Unnamed),
        0 <= index < parameters(name).unwrap().len(),
    ensures
        ({
            let parameter = parameters(name).unwrap()[index];
            let added = filled(parts, Some((false, 0)), args);
            &&& may_be_left_out(name, parameter) && !provided(args, index, parameter.text())
                ==> added.contains(parameter.text() + " => NULL"@)
            &&& added.len() <= 2
            &&& forall|i: int|
                0 <= i < added.len() ==> (#[trigger] added[i] == "model"@ + " => NULL"@ || added[i]
                    == "criteria"@ + " => NULL"@ && name == "noul"@)
            &&& parameter is Model && provided(args, index, "model"@) ==> !added.contains(
                "model"@ + " => NULL"@,
            )
            &&& parameter is Criteria && provided(args, index, "criteria"@) ==> !added.contains(
                "criteria"@ + " => NULL"@,
            )
        }),
{
    four_functions_take_arguments(name);
    names_apart();
    texts_apart();
    let arguments = parameters(name).unwrap();
    let names = texts(arguments);
    let count = names.len() as int;
    let first = first_optional(name, count);
    assert(named_any(args));
    assert(names[count - 1] == "model"@);
    assert(provided(args, index, names[index]) == given(args, index, names[index])) by {
        if provided(args, index, names[index]) {
            let place = choose|place: int|
                0 <= place < args.len() && match #[trigger] args[place] {
                    Argument::Unnamed => place == index,
                    Argument::Named(own) => own.value == names[index] && own.quoted || lowered(
                        own.value,
                    ) == lowered(names[index]) && !own.quoted,
                    Argument::Computed => false,
                };
            assert(gives(args[place], place, index, names[index]));
        }
        if given(args, index, names[index]) {
            let place = choose|place: int|
                0 <= place < args.len() && gives(
                    #[trigger] args[place],
                    place,
                    index,
                    names[index],
                );
            assert(gives(args[place], place, index, names[index]));
        }
    }
    let added = defaults(args, names, first, count);
    if name == "noul"@ {
        assert(names[2] == "criteria"@);
        let none = defaults(args, names, 2, 2);
        let one = defaults(args, names, 2, 3);
        assert(none =~= Seq::empty());
        assert(one == if given(args, 2, names[2]) {
            none
        } else {
            none.push("criteria"@ + " => NULL"@)
        });
        assert(added == if given(args, 3, names[3]) {
            one
        } else {
            one.push("model"@ + " => NULL"@)
        });
        if !given(args, 2, names[2]) {
            assert(added[0] == "criteria"@ + " => NULL"@);
        }
        if !given(args, 3, names[3]) {
            assert(added[added.len() - 1] == "model"@ + " => NULL"@);
        }
    } else {
        let none = defaults(args, names, count - 1, count - 1);
        assert(none =~= Seq::empty());
        assert(added == if given(args, count - 1, names[count - 1]) {
            none
        } else {
            none.push("model"@ + " => NULL"@)
        });
        if !given(args, count - 1, names[count - 1]) {
            assert(added[0] == "model"@ + " => NULL"@);
        }
    }
}

/// The two texts that may be filled in are different texts.
proof fn texts_apart()
    ensures
        "model"@ + " => NULL"@ != "criteria"@ + " => NULL"@,
        "model"@ != "criteria"@,
{
    reveal_strlit("model");
    reveal_strlit("criteria");
    reveal_strlit(" => NULL");
    assert("model"@.len() == 5 && "criteria"@.len() == 8);
    assert(("model"@ + " => NULL"@).len() != ("criteria"@ + " => NULL"@).len());
}

/// A call that is no function of this library, one whose arguments were treated already or end
/// with clauses of their own, and one without a list of arguments is left as it is.
pub proof fn other_calls_are_left(
    parts: Seq<Option<Named>>,
    list: Option<(bool, usize)>,
    args: Seq<Argument>,
)
    requires
        looked_up(parts) is None || parameters(looked_up(parts).unwrap()) is None || list is None
            || list.unwrap().0 || list.unwrap().1 > 0,
    ensures
        filled(parts, list, args).len() == 0,
{
}

/// Whether some word occurs among some tokens.
pub open spec fn mentions(tokens: Seq<Token>, word: Seq<char>) -> bool {
    exists|at: int| 0 <= at < tokens.len() && #[trigger] tokens[at] == Token::Word(word)
}

/// White space does not count, and everything else does, in its order.
pub proof fn spaces_do_not_count(tokens: Seq<Token>)
    ensures
        forall|at: int|
            0 <= at < visible(tokens).len() ==> !(#[trigger] visible(tokens)[at] is Space)
                && tokens.contains(visible(tokens)[at]),
        forall|at: int|
            0 <= at < tokens.len() && !(#[trigger] tokens[at] is Space) ==> visible(
                tokens,
            ).contains(tokens[at]),
        (forall|at: int| 0 <= at < tokens.len() ==> !(#[trigger] tokens[at] is Space)) ==> visible(
            tokens,
        ) == tokens,
    decreases tokens.len(),
{
    if tokens.len() > 0 {
        let rest = tokens.drop_last();
        spaces_do_not_count(rest);
        let all = visible(tokens);
        let before = visible(rest);
        assert forall|at: int| 0 <= at < all.len() implies !(#[trigger] all[at] is Space)
            && tokens.contains(all[at]) by {
            if at < before.len() {
                assert(all[at] == before[at]);
                assert(rest.contains(before[at]));
                let place = choose|place: int| 0 <= place < rest.len() && rest[place] == before[at];
                assert(tokens[place] == before[at]);
            } else {
                assert(tokens[tokens.len() - 1] == all[at]);
            }
        }
        assert forall|at: int| 0 <= at < tokens.len() && !(
        #[trigger] tokens[at] is Space) implies all.contains(tokens[at]) by {
            if at < rest.len() {
                assert(rest[at] == tokens[at]);
                assert(before.contains(rest[at]));
                let place = choose|place: int|
                    0 <= place < before.len() && before[place] == rest[at];
                assert(all[place] == before[place]);
            } else {
                assert(all[all.len() - 1] == tokens[at]);
            }
        }
        if forall|at: int| 0 <= at < tokens.len() ==> !(#[trigger] tokens[at] is Space) {
            assert forall|at: int| 0 <= at < rest.len() implies !(#[trigger] rest[at] is Space) by {
                assert(rest[at] == tokens[at]);
            }
            assert(!(tokens[tokens.len() - 1] is Space));
            assert(all =~= tokens);
        }
    } else {
        assert(visible(tokens) =~= tokens);
    }
}

/// A query that holds none of the words FLUSH, SET and LIMIT can be parsed safely.
pub proof fn ordinary_queries_survive(tokens: Seq<Token>)
    requires
        !mentions(tokens, "FLUSH"@),
        !mentions(tokens, "SET"@),
        !mentions(tokens, "LIMIT"@),
    ensures
        survives(Some(tokens)),
        survives(None),
{
    let all = visible(tokens);
    spaces_do_not_count(tokens);
    assert forall|at: int| 0 <= at < all.len() implies !#[trigger] breaks_at(all, at) by {
        assert(tokens.contains(all[at]));
        let place = choose|place: int| 0 <= place < tokens.len() && tokens[place] == all[at];
        assert(tokens[place] == all[at]);
    }
}

/// Whether LIMIT ALL BY stands somewhere, or the query starts by setting an authorization
/// without a scope or by flushing the logs of a channel without a name.
pub open spec fn broken(tokens: Seq<Token>, at: int) -> bool {
    ||| at + 2 < tokens.len() && tokens[at] == Token::Word("LIMIT"@) && tokens[at + 1]
        == Token::Word("ALL"@) && tokens[at + 2] == Token::Word("BY"@)
    ||| at == 0 && 3 <= tokens.len() && tokens[0] == Token::Word("SET"@) && tokens[1]
        == Token::Word("AUTHORIZATION"@) && (tokens[2] is Word || tokens[2] is Quoted)
    ||| at == 0 && tokens == seq![
        Token::Word("FLUSH"@),
        Token::Word("RELAY"@),
        Token::Word("LOGS"@),
        Token::Word("FOR"@),
        Token::Word("CHANNEL"@),
    ]
}

/// A query in which LIMIT ALL BY stands, or that starts by setting an authorization without a
/// scope or by flushing the logs of a channel without a name, cannot.
pub proof fn broken_queries_do_not_survive(tokens: Seq<Token>, at: int)
    requires
        forall|i: int| 0 <= i < tokens.len() ==> !(#[trigger] tokens[i] is Space),
        0 <= at,
        broken(tokens, at),
    ensures
        !survives(Some(tokens)),
{
    spaces_do_not_count(tokens);
    if at == 0 && tokens.len() == 5 && tokens[0] == Token::Word("FLUSH"@) {
        assert("RELAY"@ != "NO_WRITE_TO_BINLOG"@ && "RELAY"@ != "LOCAL"@) by {
            reveal_strlit("RELAY");
            reveal_strlit("NO_WRITE_TO_BINLOG");
            reveal_strlit("LOCAL");
            assert("RELAY"@[0] == 'R' && "LOCAL"@[0] == 'L' && "RELAY"@.len() == 5);
        }
    }
    let all = visible(tokens);
    assert(all == tokens);
    assert(breaks_at(all, at) && at < all.len());
    let query = Some(tokens);
    let seen = visible(query->0);
    assert(seen == all);
    assert(breaks_at(seen, at));
}

/// Statements are put behind each other with semicolons between them.
pub proof fn statements_are_joined(statements: Seq<Seq<char>>, more: Seq<char>)
    ensures
        joined(seq![more]) == more,
        statements.len() > 0 ==> joined(statements.push(more)) == joined(statements) + "; "@
            + more,
{
    assert(statements.push(more).drop_last() =~= statements);
    assert(statements.push(more).last() == more);
    assert(seq![more].last() == more);
}

/// Every call of a query is filled from its own name, list and arguments.
pub proof fn every_call_is_filled(
    names: Seq<Seq<Option<Named>>>,
    lists: Seq<Option<(bool, usize)>>,
    args: Seq<Seq<Argument>>,
    at: int,
)
    requires
        0 <= at < names.len(),
    ensures
        all_filled(names, lists, args).len() == names.len(),
        all_filled(names, lists, args)[at] == filled(names[at], lists[at], args[at]),
        filled(names[at], lists[at], args[at]).len() > 0 ==> any_filled(
            all_filled(names, lists, args),
        ),
{
    let all = all_filled(names, lists, args);
    assert(all[at] == filled(names[at], lists[at], args[at]));
}

/// Whether a statement can begin behind a token: a semicolon, a closing bracket, or one of the
/// words that other statements start with or go on with.
pub open spec fn before_a_statement(token: Token) -> bool {
    ||| token is Semicolon
    ||| token is Close
    ||| token matches Token::Word(word) && (word == "THEN"@ || word == "ELSE"@ || word
        == "BEGIN"@ || word == "AS"@ || word == "EXPLAIN"@ || word == "DESC"@ || word
        == "DESCRIBE"@ || word == "PLAN"@ || word == "ESTIMATE"@ || word == "ANALYZE"@ || word
        == "VERBOSE"@ || word == "TEXT"@ || word == "GRAPHVIZ"@ || word == "JSON"@ || word
        == "TREE"@)
}

/// A query in which an authorization is set without a scope where a statement can begin, or
/// anywhere behind WHILE or TRIGGER, cannot be parsed safely.
pub proof fn later_statements_break_too(tokens: Seq<Token>, at: int, body: int)
    requires
        forall|i: int| 0 <= i < tokens.len() ==> !(#[trigger] tokens[i] is Space),
        0 < at,
        at + 2 < tokens.len(),
        tokens[at] == Token::Word("SET"@),
        tokens[at + 1] == Token::Word("AUTHORIZATION"@),
        tokens[at + 2] is Word || tokens[at + 2] is Quoted,
        before_a_statement(tokens[at - 1]) || (0 <= body < at && (tokens[body] == Token::Word(
            "WHILE"@,
        ) || tokens[body] == Token::Word("TRIGGER"@))),
    ensures
        !survives(Some(tokens)),
{
    spaces_do_not_count(tokens);
    if 0 <= body < at && (tokens[body] == Token::Word("WHILE"@) || tokens[body] == Token::Word(
        "TRIGGER"@,
    )) {
        bodies_go_on(tokens, at, body);
    }
    let query = Some(tokens);
    let seen = visible(query->0);
    assert(seen == tokens);
    assert(breaks_at(seen, at));
}

/// Behind WHILE or TRIGGER everything is a body.
proof fn bodies_go_on(tokens: Seq<Token>, at: int, body: int)
    requires
        0 <= body < at <= tokens.len(),
        tokens[body] == Token::Word("WHILE"@) || tokens[body] == Token::Word("TRIGGER"@),
    ensures
        in_body(tokens, at),
    decreases at,
{
    if body < at - 1 {
        bodies_go_on(tokens, at - 1, body);
    }
}

/// Flushing the logs of a channel that has a name is no trouble.
pub proof fn named_channels_survive(name: Seq<char>)
    requires
        name != "FLUSH"@,
        name != "SET"@,
        name != "LIMIT"@,
    ensures
        survives(
            Some(
                seq![
                    Token::Word("FLUSH"@),
                    Token::Word("RELAY"@),
                    Token::Word("LOGS"@),
                    Token::Word("FOR"@),
                    Token::Word("CHANNEL"@),
                    Token::Word(name),
                ],
            ),
        ),
{
    let tokens = seq![
        Token::Word("FLUSH"@),
        Token::Word("RELAY"@),
        Token::Word("LOGS"@),
        Token::Word("FOR"@),
        Token::Word("CHANNEL"@),
        Token::Word(name),
    ];
    spaces_do_not_count(tokens);
    words_apart();
    let query = Some(tokens);
    let seen = visible(query->0);
    assert(seen == tokens);
    assert(name_at(tokens, 5)) by {
        assert(part_at(tokens, 5));
        assert(!token_at(tokens, 6, Token::Period));
    }
    assert forall|at: int| 0 <= at < seen.len() implies !#[trigger] breaks_at(seen, at) by {
        assert(at == 0 || at == 1 || at == 2 || at == 3 || at == 4 || at == 5);
    }
}

/// The words of statements are different words.
proof fn words_apart()
    ensures
        "RELAY"@ != "FLUSH"@ && "LOGS"@ != "FLUSH"@ && "FOR"@ != "FLUSH"@ && "CHANNEL"@
            != "FLUSH"@,
        "FLUSH"@ != "SET"@ && "RELAY"@ != "SET"@ && "LOGS"@ != "SET"@ && "FOR"@ != "SET"@
            && "CHANNEL"@ != "SET"@,
        "FLUSH"@ != "LIMIT"@ && "RELAY"@ != "LIMIT"@ && "LOGS"@ != "LIMIT"@ && "FOR"@ != "LIMIT"@
            && "CHANNEL"@ != "LIMIT"@,
        "RELAY"@ != "LOCAL"@ && "RELAY"@ != "NO_WRITE_TO_BINLOG"@,
{
    reveal_strlit("FLUSH");
    reveal_strlit("RELAY");
    reveal_strlit("LOGS");
    reveal_strlit("FOR");
    reveal_strlit("CHANNEL");
    reveal_strlit("SET");
    reveal_strlit("LIMIT");
    reveal_strlit("LOCAL");
    reveal_strlit("NO_WRITE_TO_BINLOG");
    assert("FLUSH"@.len() == 5 && "RELAY"@.len() == 5 && "LIMIT"@.len() == 5 && "LOCAL"@.len()
        == 5);
    assert("FLUSH"@[0] == 'F' && "RELAY"@[0] == 'R' && "LIMIT"@[0] == 'L' && "LOCAL"@[0] == 'L');
    assert("LOGS"@.len() == 4 && "FOR"@.len() == 3 && "SET"@.len() == 3 && "CHANNEL"@.len() == 7);
    assert("FOR"@[0] == 'F' && "SET"@[0] == 'S');
    assert("NO_WRITE_TO_BINLOG"@.len() == 18);
}

/// Whether a query starts by setting an authorization under a scope that is none, or by
/// flushing logs locally for a channel without a name.
pub open spec fn broken_with_scope(tokens: Seq<Token>) -> bool {
    ||| tokens.len() >= 5 && tokens[0] == Token::Word("SET"@) && tokens[1] == Token::Word(
        "HIVEVAR"@,
    ) && tokens[2] == Token::Colon && tokens[3] == Token::Word("AUTHORIZATION"@) && (
    tokens[4] is Word || tokens[4] is Quoted)
    ||| tokens.len() >= 6 && tokens[0] == Token::Word("FLUSH"@) && (tokens[1] == Token::Word(
        "LOCAL"@,
    ) || tokens[1] == Token::Word("NO_WRITE_TO_BINLOG"@)) && tokens[2] == Token::Word("RELAY"@)
        && tokens[3] == Token::Word("LOGS"@) && tokens[4] == Token::Word("FOR"@) && tokens[5]
        == Token::Word("CHANNEL"@) && (tokens.len() > 6 ==> !(tokens[6] is Word) && !(
    tokens[6] is Quoted))
}

/// Such a query cannot be parsed safely either.
pub proof fn scopes_do_not_help(tokens: Seq<Token>)
    requires
        forall|i: int| 0 <= i < tokens.len() ==> !(#[trigger] tokens[i] is Space),
        broken_with_scope(tokens),
    ensures
        !survives(Some(tokens)),
{
    spaces_do_not_count(tokens);
    let query = Some(tokens);
    let seen = visible(query->0);
    assert(seen == tokens);
    assert(breaks_at(seen, 0));
}

/// A name goes on behind a period: a channel whose name ends with one has none.
pub proof fn names_do_not_end_with_a_period(name: Seq<char>)
    ensures
        !survives(
            Some(
                seq![
                    Token::Word("FLUSH"@),
                    Token::Word("RELAY"@),
                    Token::Word("LOGS"@),
                    Token::Word("FOR"@),
                    Token::Word("CHANNEL"@),
                    Token::Word(name),
                    Token::Period,
                ],
            ),
        ),
{
    let tokens = seq![
        Token::Word("FLUSH"@),
        Token::Word("RELAY"@),
        Token::Word("LOGS"@),
        Token::Word("FOR"@),
        Token::Word("CHANNEL"@),
        Token::Word(name),
        Token::Period,
    ];
    words_apart();
    spaces_do_not_count(tokens);
    let query = Some(tokens);
    let seen = visible(query->0);
    assert(seen == tokens);
    assert(token_at(tokens, 6, Token::Period));
    assert(!name_at(tokens, 7));
    assert(!name_at(tokens, 5));
    assert(breaks_at(seen, 0));
}

} // verus!
