//! The SQL surface: argument names, and the optional arguments that a query
//! leaves out.
use vstd::prelude::*;

use std::borrow::Cow;
use std::ops::ControlFlow;

use datafusion::sql::sqlparser::ast::{
    visit_expressions_mut, Expr, FunctionArg, FunctionArguments,
};
use datafusion::sql::sqlparser::dialect::GenericDialect;
use datafusion::sql::sqlparser::parser::{Parser, ParserError};

use crate::contract::{JevArgumentName, JevQuestionType};
use crate::errors::{plan_fault, JevError};
use crate::text::{join2, lower_text, lowered, same};
use crate::tokens::{is_parsable, parsable};

verus! {

/// The arguments of a function, in their order.
pub open spec fn parameters(name: Seq<char>) -> Option<Seq<JevArgumentName>> {
    if name == "ask"@ {
        Some(seq![JevArgumentName::State, JevArgumentName::Questions, JevArgumentName::Model])
    } else if exists|kind: JevQuestionType| name == #[trigger] kind.text() {
        Some(
            seq![
                JevArgumentName::State,
                JevArgumentName::Instructions,
                JevArgumentName::Criteria,
                JevArgumentName::Model,
            ],
        )
    } else {
        None
    }
}

/// The texts of some argument names.
pub open spec fn texts(arguments: Seq<JevArgumentName>) -> Seq<Seq<char>> {
    arguments.map_values(|argument: JevArgumentName| argument.text())
}

/// The names of the arguments of a function, in their order.
pub fn parameter_names(name: &str) -> (names: Option<Vec<&'static str>>)
    ensures
        match (names, parameters(name@)) {
            (Some(names), Some(arguments)) => names@.map_values(|text: &'static str| text@) == texts(
                arguments,
            ),
            (None, None) => true,
            _ => false,
        },
{
    let mut typed = false;
    let kinds = JevQuestionType::ALL;
    for at in 0..kinds.len()
        invariant
            kinds@ == seq![JevQuestionType::Noul, JevQuestionType::Choice, JevQuestionType::Score],
            typed == (exists|i: int| 0 <= i < at && name@ == (#[trigger] kinds@[i]).text()),
    {
        if same(kinds[at].as_str(), name) {
            typed = true;
        }
    }
    let arguments = if same(name, "ask") {
        vec![JevArgumentName::State, JevArgumentName::Questions, JevArgumentName::Model]
    } else if typed {
        vec![
            JevArgumentName::State,
            JevArgumentName::Instructions,
            JevArgumentName::Criteria,
            JevArgumentName::Model,
        ]
    } else {
        proof {
            assert forall|kind: JevQuestionType| name@ != #[trigger] kind.text() by {
                assert(kinds@[0] == JevQuestionType::Noul);
                assert(kinds@[1] == JevQuestionType::Choice);
                assert(kinds@[2] == JevQuestionType::Score);
            }
        }
        return None;
    };
    let mut names: Vec<&'static str> = Vec::new();
    for at in 0..arguments.len()
        invariant
            names@.len() == at,
            forall|i: int| 0 <= i < at ==> (#[trigger] names@[i])@ == arguments@[i].text(),
    {
        names.push(arguments[at].as_str());
    }
    assert(names@.map_values(|text: &'static str| text@) =~= texts(arguments@));
    Some(names)
}

/// A name as a query writes it.
#[derive(Debug, Clone)]
pub struct SqlName {
    pub value: String,
    pub quoted: bool,
}

/// An argument of a call, as far as its name goes.
#[derive(Debug, Clone)]
pub enum SqlArgument {
    Unnamed,
    /// The name, and whether it is quoted.
    Named(String, bool),
    /// An argument whose name is an expression.
    Computed,
}

/// The meaning of a [`SqlName`].
pub ghost struct Named {
    pub value: Seq<char>,
    pub quoted: bool,
}

/// The meaning of a [`SqlArgument`].
pub ghost enum Argument {
    Unnamed,
    Named(Named),
    Computed,
}

impl View for SqlName {
    type V = Named;

    open spec fn view(&self) -> Named {
        Named { value: self.value@, quoted: self.quoted }
    }
}

impl View for SqlArgument {
    type V = Argument;

    open spec fn view(&self) -> Argument {
        match self {
            SqlArgument::Unnamed => Argument::Unnamed,
            SqlArgument::Named(value, quoted) => Argument::Named(
                Named { value: value@, quoted: *quoted },
            ),
            SqlArgument::Computed => Argument::Computed,
        }
    }
}

/// The meanings of some arguments.
pub open spec fn arguments_view(list: Seq<SqlArgument>) -> Seq<Argument> {
    Seq::new(list.len(), |i: int| list[i]@)
}

/// The meaning of a name of which a part may be no identifier.
pub open spec fn parts_view(parts: Seq<Option<SqlName>>) -> Seq<Option<Named>> {
    Seq::new(
        parts.len(),
        |i: int|
            match parts[i] {
                Some(part) => Some(part@),
                None => None,
            },
    )
}

/// The meanings of the names of some calls.
pub open spec fn names_view(names: Seq<Vec<Option<SqlName>>>) -> Seq<Seq<Option<Named>>> {
    Seq::new(names.len(), |i: int| parts_view(names[i]@))
}

/// The meanings of the arguments of some calls.
pub open spec fn lists_view(lists: Seq<Vec<SqlArgument>>) -> Seq<Seq<Argument>> {
    Seq::new(lists.len(), |i: int| arguments_view(lists[i]@))
}

/// The texts of some arguments.
pub open spec fn texts_view(texts: Seq<String>) -> Seq<Seq<char>> {
    Seq::new(texts.len(), |i: int| texts[i]@)
}

/// The texts of the arguments of some calls.
pub open spec fn fills_view(fills: Seq<Vec<String>>) -> Seq<Seq<Seq<char>>> {
    Seq::new(fills.len(), |i: int| texts_view(fills[i]@))
}

/// The names of all function calls of a query, the calls in its arguments before
/// each call, or the text of the parser's error.
pub uninterp spec fn sql_names(sql: Seq<char>) -> Result<Seq<Seq<Option<Named>>>, Seq<char>>;

/// The arguments of all function calls of a query, in the order of [`sql_names`],
/// with none for a call without an argument list.
pub uninterp spec fn sql_arguments(sql: Seq<char>) -> Seq<Seq<Argument>>;

/// For each function call of a query, in the order of [`sql_names`], and where it has
/// an argument list: whether `ALL` or `DISTINCT` stands before the arguments, and the
/// number of clauses behind them.
pub uninterp spec fn sql_lists(sql: Seq<char>) -> Seq<Option<(bool, usize)>>;

/// The statements of a query with more arguments behind those of its calls, given by
/// their texts for each call in the order of [`sql_names`]; none where the query cannot be
/// parsed.
pub uninterp spec fn sql_with(sql: Seq<char>, arguments: Seq<Seq<Seq<char>>>) -> Option<
    Seq<Seq<char>>,
>;

/// `Parser::parse_sql` in the generic dialect and `visit_expressions_mut` of
/// sqlparser: the parts of the name of each function call, in the order in which the
/// visitor leaves expressions. The result is a function of the text alone. The parser does
/// not survive every text.
#[verifier::external_body]
fn call_names(sql: &str) -> (result: Result<Vec<Vec<Option<SqlName>>>, String>)
    requires
        parsable(sql@),
    ensures
        match result {
            Ok(names) => sql_names(sql@) == Ok::<_, Seq<char>>(names_view(names@)),
            Err(text) => sql_names(sql@) == Err::<Seq<Seq<Option<Named>>>, _>(text@),
        },
{
    let mut statements =
        Parser::parse_sql(&GenericDialect {}, sql).map_err(|error| error.to_string())?;
    let mut names: Vec<Vec<Option<SqlName>>> = Vec::new();
    let _: ControlFlow<()> = visit_expressions_mut(&mut statements, |expr| {
        if let Expr::Function(call) = expr {
            names.push(call.name.0.iter().map(|part| part.as_ident().map(|ident|
                SqlName { value: ident.value.clone(), quoted: ident.quote_style.is_some() }
            )).collect());
        }
        ControlFlow::Continue(())
    });
    Ok(names)
}

/// `Parser::parse_sql` in the generic dialect and `visit_expressions_mut` of
/// sqlparser: the arguments of each function call, in the order in which the visitor
/// leaves expressions, so one list for each name that [`call_names`] gives. The result
/// is a function of the text alone.
#[verifier::external_body]
fn call_arguments(sql: &str) -> (lists: Vec<Vec<SqlArgument>>)
    requires
        parsable(sql@),
    ensures
        lists_view(lists@) == sql_arguments(sql@),
        sql_names(sql@) matches Ok(names) ==> lists@.len() == names.len(),
{
    let mut statements = Parser::parse_sql(&GenericDialect {}, sql).unwrap_or_default();
    let mut lists = Vec::new();
    let _ = visit_expressions_mut(&mut statements, |expr| {
        if let Expr::Function(call) = expr {
            lists.push(match &call.args {
                FunctionArguments::None | FunctionArguments::Subquery(_) => Vec::new(),
                FunctionArguments::List(list) => list.args.iter().map(|arg| match arg {
                    FunctionArg::Unnamed(_) => SqlArgument::Unnamed,
                    FunctionArg::Named { name, .. } => SqlArgument::Named(name.value.clone(), name.quote_style.is_some()),
                    FunctionArg::ExprNamed { .. } => SqlArgument::Computed,
                }).collect() });
        }
        ControlFlow::<()>::Continue(())
    });
    lists
}

/// `Parser::parse_sql` in the generic dialect and `visit_expressions_mut` of
/// sqlparser: what stands around the arguments of each function call that has a list
/// of them, in the order in which the visitor leaves expressions. The result is a
/// function of the text alone.
#[verifier::external_body]
fn call_lists(sql: &str) -> (lists: Vec<Option<(bool, usize)>>)
    requires
        parsable(sql@),
    ensures
        lists@ == sql_lists(sql@),
        sql_names(sql@) matches Ok(names) ==> lists@.len() == names.len(),
{
    let mut statements = Parser::parse_sql(&GenericDialect {}, sql).unwrap_or_default();
    let mut lists = Vec::new();
    let _ = visit_expressions_mut(&mut statements, |expr| {
        if let Expr::Function(call) = expr {
            lists.push(match &call.args {
                FunctionArguments::None | FunctionArguments::Subquery(_) => None,
                FunctionArguments::List(list) => {
                    Some((list.duplicate_treatment.is_some(), list.clauses.len()))
                }
            });
        }
        ControlFlow::<()>::Continue(())
    });
    lists
}

/// Whether a text is that of an argument that stands for one that is left out.
pub open spec fn stands_in(text: Seq<char>) -> bool {
    text == "NULL"@ || text == "criteria"@ + " => NULL"@ || text == "model"@ + " => NULL"@
}

/// `Parser::parse_sql`, `Parser::parse_function_args` and `visit_expressions_mut` in
/// the generic dialect and the `Display` of statements of sqlparser: the statements
/// with the arguments that texts stand for behind those of each function call that has
/// a list of them, in the order in which the visitor leaves expressions, printed. The
/// result is a function of the texts alone. `NULL` by itself or behind one of two names
/// is an argument for the parser. Nothing is said of what the parser makes of the printed
/// statements.
#[verifier::external_body]
fn append_arguments(sql: &str, fills: &Vec<Vec<String>>) -> (result: Option<Vec<String>>)
    requires
        parsable(sql@),
        forall|i: int, j: int|
            0 <= i < fills@.len() && 0 <= j < fills@[i]@.len() ==> stands_in(
                (#[trigger] fills@[i]@[j])@,
            ),
    ensures
        match (result, sql_with(sql@, fills_view(fills@))) {
            (Some(statements), Some(expected)) => texts_view(statements@) == expected,
            (None, None) => true,
            _ => false,
        },
        result is Some == sql_names(sql@) is Ok,
{
    let mut statements = Parser::parse_sql(&GenericDialect {}, sql).ok()?;
    let mut parsed = fills.iter().map(|fill| fill.iter().map(|text|
        Parser::new(&GenericDialect {}).try_with_sql(text)?.parse_function_args()
    ).collect()).collect::<Result<Vec<Vec<_>>, ParserError>>().ok()?.into_iter();
    let _ = visit_expressions_mut(&mut statements, |expr| {
        if let Expr::Function(call) = expr {
            let more = parsed.next().unwrap_or_default();
            if let FunctionArguments::List(list) = &mut call.args { list.args.extend(more); }
        }
        ControlFlow::<()>::Continue(())
    });
    Some(statements.iter().map(ToString::to_string).collect())
}

/// The name under which a call is looked up: one identifier, in lower case unless it
/// is quoted.
pub open spec fn looked_up(parts: Seq<Option<Named>>) -> Option<Seq<char>> {
    if parts.len() == 1 {
        match parts[0] {
            Some(name) => Some(
                if name.quoted {
                    name.value
                } else {
                    lowered(name.value)
                },
            ),
            None => None,
        }
    } else {
        None
    }
}

/// The place of the first argument of a function that may be left out.
pub open spec fn first_optional(name: Seq<char>, count: int) -> int {
    if name == "noul"@ {
        2
    } else {
        count - 1
    }
}

/// Whether an argument at a place gives a parameter.
pub open spec fn gives(argument: Argument, place: int, index: int, name: Seq<char>) -> bool {
    match argument {
        Argument::Unnamed => place == index,
        Argument::Named(given) => if given.quoted {
            given.value == name
        } else {
            lowered(given.value) == lowered(name)
        },
        Argument::Computed => false,
    }
}

/// Whether some argument gives a parameter.
pub open spec fn given(args: Seq<Argument>, index: int, name: Seq<char>) -> bool {
    exists|place: int|
        0 <= place < args.len() && gives(#[trigger] args[place], place, index, name)
}

/// Whether some argument has a name.
pub open spec fn named_any(args: Seq<Argument>) -> bool {
    exists|place: int| 0 <= place < args.len() && !(#[trigger] args[place] is Unnamed)
}

/// The text of the argument that stands for a parameter that is left out.
pub open spec fn default_text(named: bool, name: Seq<char>) -> Seq<char> {
    if named {
        name + " => NULL"@
    } else {
        "NULL"@
    }
}

/// The texts of the arguments that stand for the parameters between two places that
/// are left out.
pub open spec fn defaults(
    args: Seq<Argument>,
    names: Seq<Seq<char>>,
    first: int,
    count: int,
) -> Seq<Seq<char>>
    decreases count,
{
    if count <= first || count <= 0 {
        Seq::empty()
    } else {
        let before = defaults(args, names, first, count - 1);
        if given(args, count - 1, names[count - 1]) {
            before
        } else {
            before.push(default_text(named_any(args), names[count - 1]))
        }
    }
}

/// The texts of the arguments that stand for those that a call leaves out. Only calls
/// of the functions under their own names are filled, and only where all arguments
/// that must be given are: an unnamed list that is too short, or one with `DISTINCT`
/// or a clause, is left for the planner to reject.
pub open spec fn filled(
    parts: Seq<Option<Named>>,
    list: Option<(bool, usize)>,
    args: Seq<Argument>,
) -> Seq<Seq<char>> {
    match looked_up(parts) {
        Some(name) => match (parameters(name), list) {
            (Some(arguments), Some((treated, clauses))) => {
                let names = texts(arguments);
                let first = first_optional(name, names.len() as int);
                if treated || clauses > 0 || !named_any(args) && args.len() < first {
                    Seq::empty()
                } else {
                    defaults(args, names, first, names.len() as int)
                }
            },
            _ => Seq::empty(),
        },
        None => Seq::empty(),
    }
}

/// The texts of the arguments that stand for those that each call leaves out.
pub open spec fn all_filled(
    names: Seq<Seq<Option<Named>>>,
    lists: Seq<Option<(bool, usize)>>,
    args: Seq<Seq<Argument>>,
) -> Seq<Seq<Seq<char>>> {
    Seq::new(names.len(), |i: int| filled(names[i], lists[i], args[i]))
}

/// Whether some call leaves out arguments.
pub open spec fn any_filled(fills: Seq<Seq<Seq<char>>>) -> bool {
    exists|i: int| 0 <= i < fills.len() && (#[trigger] fills[i]).len() > 0
}

/// Whether an argument at a place gives a parameter.
fn argument_gives(argument: &SqlArgument, place: usize, index: usize, name: &str) -> (yes: bool)
    ensures
        yes == gives(argument@, place as int, index as int, name@),
{
    match argument {
        SqlArgument::Unnamed => place == index,
        SqlArgument::Named(value, quoted) => {
            if *quoted {
                same(value.as_str(), name)
            } else {
                same(lower_text(value.as_str()).as_str(), lower_text(name).as_str())
            }
        },
        SqlArgument::Computed => false,
    }
}

/// The texts of the arguments that stand for those that a call leaves out.
pub fn default_arguments(
    parts: &Vec<Option<SqlName>>,
    list: Option<(bool, usize)>,
    args: &Vec<SqlArgument>,
) -> (fill: Vec<String>)
    ensures
        texts_view(fill@) == filled(parts_view(parts@), list, arguments_view(args@)),
{
    let mut fill: Vec<String> = Vec::new();
    assert(texts_view(fill@) =~= Seq::empty());
    assert(parts_view(parts@).len() == parts@.len());
    // Only the functions under their own names belong to this surface.
    if parts.len() != 1 {
        return fill;
    }
    assert(parts_view(parts@)[0] == match parts@[0] {
        Some(part) => Some(part@),
        None => None,
    });
    let name = match &parts[0] {
        Some(name) => {
            if name.quoted {
                name.value.clone()
            } else {
                lower_text(name.value.as_str())
            }
        },
        None => {
            return fill;
        },
    };
    let names = match parameter_names(name.as_str()) {
        Some(names) => names,
        None => {
            return fill;
        },
    };
    match list {
        None => {
            return fill;
        },
        Some((treated, clauses)) => {
            if treated || clauses > 0 {
                return fill;
            }
        },
    }
    let ghost all = arguments_view(args@);
    let ghost wanted = texts(parameters(name@)->0);
    assert(all.len() == args@.len());
    assert forall|i: int| 0 <= i < names@.len() implies (#[trigger] names@[i])@ == wanted[i] by {
        assert(names@.map_values(|text: &'static str| text@)[i] == names@[i]@);
    }
    assert(names@.map_values(|text: &'static str| text@).len() == names@.len());
    let mut has_names = false;
    for at in 0..args.len()
        invariant
            all == arguments_view(args@),
            has_names == exists|place: int| 0 <= place < at && !(#[trigger] all[place] is Unnamed),
    {
        assert(all[at as int] == args@[at as int]@);
        match &args[at] {
            SqlArgument::Unnamed => {},
            _ => {
                has_names = true;
            },
        }
    }
    let first = if same(name.as_str(), "noul") {
        2
    } else {
        names.len() - 1
    };
    if !has_names && args.len() < first {
        return fill;
    }
    for index in first..names.len()
        invariant
            all == arguments_view(args@),
            names@.len() == wanted.len(),
            forall|i: int| 0 <= i < names@.len() ==> (#[trigger] names@[i])@ == wanted[i],
            has_names == named_any(all),
            first <= names@.len(),
            texts_view(fill@) == defaults(all, wanted, first as int, index as int),
    {
        let mut present = false;
        for place in 0..args.len()
            invariant
                all == arguments_view(args@),
                index < names@.len(),
                names@[index as int]@ == wanted[index as int],
                present == exists|p: int|
                    0 <= p < place && gives(
                        #[trigger] all[p],
                        p,
                        index as int,
                        wanted[index as int],
                    ),
        {
            assert(all[place as int] == args@[place as int]@);
            if argument_gives(&args[place], place, index, names[index]) {
                present = true;
            }
        }
        assert(present == given(all, index as int, wanted[index as int]));
        if !present {
            let ghost before = texts_view(fill@);
            if has_names {
                fill.push(join2(names[index], " => NULL"));
            } else {
                fill.push("NULL".to_owned());
            }
            assert(texts_view(fill@) =~= before.push(
                default_text(has_names, wanted[index as int]),
            ));
        }
    }
    fill
}

/// Statements with semicolons between them.
pub open spec fn joined(statements: Seq<Seq<char>>) -> Seq<char>
    decreases statements.len(),
{
    if statements.len() == 0 {
        Seq::empty()
    } else if statements.len() == 1 {
        statements.last()
    } else {
        joined(statements.drop_last()) + "; "@ + statements.last()
    }
}

/// Statements with semicolons between them.
fn join_statements(statements: &Vec<String>) -> (text: String)
    ensures
        text@ == joined(texts_view(statements@)),
{
    let ghost all = texts_view(statements@);
    let mut text = String::new();
    assert(all.take(0) =~= Seq::<Seq<char>>::empty());
    for at in 0..statements.len()
        invariant
            all == texts_view(statements@),
            text@ == joined(all.take(at as int)),
    {
        let ghost next = all.take(at as int + 1);
        assert(next.drop_last() =~= all.take(at as int));
        assert(next.last() == statements@[at as int]@);
        if at > 0 {
            text.append("; ");
        }
        text.append(statements[at].as_str());
        assert(text@ =~= joined(next));
    }
    assert(all.take(all.len() as int) =~= all);
    text
}

/// The texts that stand for arguments are those of the two that may be left out.
proof fn fills_stand_in(
    parts: Seq<Option<Named>>,
    list: Option<(bool, usize)>,
    args: Seq<Argument>,
)
    ensures
        forall|j: int|
            0 <= j < filled(parts, list, args).len() ==> stands_in(
                #[trigger] filled(parts, list, args)[j],
            ),
{
    if let Some(name) = looked_up(parts) {
        if let Some(arguments) = parameters(name) {
            let names = texts(arguments);
            let first = first_optional(name, names.len() as int);
            if name == "noul"@ {
                reveal_strlit("noul");
                reveal_strlit("ask");
                assert("noul"@.len() != "ask"@.len());
                assert(names[2] == "criteria"@ && names[3] == "model"@);
            } else {
                assert(names[names.len() - 1] == "model"@);
            }
            defaults_stand_in(args, names, first, names.len() as int);
        }
    }
}

/// The same for the parameters between two places.
proof fn defaults_stand_in(args: Seq<Argument>, names: Seq<Seq<char>>, first: int, count: int)
    requires
        forall|i: int|
            first <= i < count && 0 <= i ==> #[trigger] names[i] == "criteria"@ || names[i]
                == "model"@,
    ensures
        forall|j: int|
            0 <= j < defaults(args, names, first, count).len() ==> stands_in(
                #[trigger] defaults(args, names, first, count)[j],
            ),
    decreases count,
{
    if first < count && 0 < count {
        defaults_stand_in(args, names, first, count - 1);
        let before = defaults(args, names, first, count - 1);
        let all = defaults(args, names, first, count);
        assert(names[count - 1] == "criteria"@ || names[count - 1] == "model"@);
        assert forall|j: int| 0 <= j < all.len() implies stands_in(#[trigger] all[j]) by {
            if j < before.len() {
                assert(all[j] == before[j]);
            }
        }
    }
}

/// What a query is normalized to: an error where it cannot be parsed, the query itself where
/// no call leaves out arguments, or else its statements with those arguments.
pub open spec fn normalized(sql: &str, result: Result<Cow<'_, str>, JevError>) -> bool {
    match (sql_names(sql@), result) {
        (Ok(names), Ok(text)) => {
            let fills = all_filled(names, sql_lists(sql@), sql_arguments(sql@));
            match text {
                Cow::Borrowed(text) => !any_filled(fills) && text == sql,
                Cow::Owned(text) => any_filled(fills) && (sql_with(sql@, fills) matches Some(
                    statements,
                ) && text@ == joined(statements)),
            }
        },
        (Err(text), Err(error)) => error@ == plan_fault("invalid SQL: "@ + text),
        _ => false,
    }
}

/// A query with `NULL` for each optional argument that a call of the functions leaves
/// out. A query without such a call stays as it is. A query is an error exactly where it
/// cannot be parsed.
pub fn normalize_jev_sql(sql: &str) -> (result: Result<Cow<'_, str>, JevError>)
    requires
        parsable(sql@),
    ensures
        normalized(sql, result),
{
    let names = match call_names(sql) {
        Ok(names) => names,
        Err(text) => {
            return Err(JevError::plan(join2("invalid SQL: ", text.as_str()).as_str()));
        },
    };
    assert(names_view(names@).len() == names@.len());
    let args = call_arguments(sql);
    let lists = call_lists(sql);
    let mut fills: Vec<Vec<String>> = Vec::new();
    let mut changed = false;
    let ghost expected = all_filled(sql_names(sql@)->Ok_0, sql_lists(sql@), sql_arguments(sql@));
    for at in 0..names.len()
        invariant
            sql_names(sql@) == Ok::<_, Seq<char>>(names_view(names@)),
            sql_arguments(sql@) == lists_view(args@),
            sql_lists(sql@) == lists@,
            expected == all_filled(names_view(names@), lists@, lists_view(args@)),
            args@.len() == names@.len(),
            lists@.len() == names@.len(),
            fills@.len() == at,
            forall|i: int| 0 <= i < at ==> texts_view((#[trigger] fills@[i])@) == expected[i],
            changed == exists|i: int| 0 <= i < at && (#[trigger] expected[i]).len() > 0,
    {
        let fill = default_arguments(&names[at], lists[at], &args[at]);
        assert(names_view(names@)[at as int] == parts_view(names@[at as int]@));
        assert(lists_view(args@)[at as int] == arguments_view(args@[at as int]@));
        assert(texts_view(fill@) == expected[at as int]);
        if fill.len() > 0 {
            changed = true;
        }
        fills.push(fill);
    }
    assert(fills_view(fills@) =~= expected);
    if !changed {
        return Ok(Cow::Borrowed(sql));
    }
    proof {
        assert forall|i: int, j: int|
            0 <= i < fills@.len() && 0 <= j < fills@[i]@.len() implies stands_in(
            (#[trigger] fills@[i]@[j])@,
        ) by {
            fills_stand_in(
                names_view(names@)[i],
                lists@[i],
                lists_view(args@)[i],
            );
            assert(texts_view(fills@[i]@) == expected[i]);
            assert(texts_view(fills@[i]@)[j] == fills@[i]@[j]@);
        }
    }
    match append_arguments(sql, &fills) {
        Some(statements) => Ok(Cow::Owned(join_statements(&statements))),
        None => Err(JevError::plan("invalid SQL: ")),
    }
}

/// The same for any query. There is no result for one that the parser does not survive.
pub fn try_normalize_jev_sql(sql: &str) -> (result: Option<Result<Cow<'_, str>, JevError>>)
    ensures
        match result {
            Some(result) => parsable(sql@) && normalized(sql, result),
            None => !parsable(sql@),
        },
{
    if is_parsable(sql) {
        Some(normalize_jev_sql(sql))
    } else {
        None
    }
}

/// The argument that the text of a default stands for.
pub open spec fn default_argument(named: bool, name: Seq<char>) -> Argument {
    if named {
        Argument::Named(Named { value: name, quoted: false })
    } else {
        Argument::Unnamed
    }
}

/// Some arguments and those that stand for the parameters between two places that
/// are left out.
pub open spec fn completed(
    args: Seq<Argument>,
    names: Seq<Seq<char>>,
    first: int,
    count: int,
) -> Seq<Argument>
    decreases count,
{
    if count <= first || count <= 0 {
        args
    } else {
        let before = completed(args, names, first, count - 1);
        if given(args, count - 1, names[count - 1]) {
            before
        } else {
            before.push(default_argument(named_any(args), names[count - 1]))
        }
    }
}

/// A call that is filled leaves out no argument that may be left out.
pub proof fn filling_leaves_nothing_out(
    args: Seq<Argument>,
    names: Seq<Seq<char>>,
    first: int,
    count: int,
    index: int,
)
    requires
        0 <= first,
        named_any(args) || first <= args.len(),
        first <= index < count <= names.len(),
    ensures
        given(completed(args, names, first, count), index, names[index]),
{
    completed_gives(args, names, first, count);
}

/// The same for all places, and what comes first stays first.
proof fn completed_gives(
    args: Seq<Argument>,
    names: Seq<Seq<char>>,
    first: int,
    count: int,
)
    requires
        0 <= first,
        named_any(args) || first <= args.len(),
        count <= names.len(),
    ensures
        args.len() <= completed(args, names, first, count).len(),
        forall|i: int|
            0 <= i < args.len() ==> #[trigger] completed(args, names, first, count)[i] == args[i],
        !named_any(args) && first <= count ==> completed(args, names, first, count).len() == if args.len()
            > count {
            args.len() as int
        } else {
            count
        },
        forall|i: int|
            first <= i < count ==> given(
                completed(args, names, first, count),
                i,
                #[trigger] names[i],
            ),
    decreases count,
{
    let all = completed(args, names, first, count);
    if first < count && 0 < count {
        completed_gives(args, names, first, count - 1);
        let before = completed(args, names, first, count - 1);
        let last = count - 1;
        assert forall|i: int| first <= i < count implies given(all, i, #[trigger] names[i]) by {
            if i < last {
                let place = choose|place: int|
                    0 <= place < before.len() && gives(
                        #[trigger] before[place],
                        place,
                        i,
                        names[i],
                    );
                assert(all[place] == before[place]);
            } else if given(args, last, names[last]) {
                let place = choose|place: int|
                    0 <= place < args.len() && gives(
                        #[trigger] args[place],
                        place,
                        last,
                        names[last],
                    );
                assert(all[place] == args[place]);
            } else {
                let added = all[before.len() as int];
                assert(added == default_argument(named_any(args), names[last]));
                if !named_any(args) {
                    if args.len() > last {
                        assert(args[last] is Unnamed);
                        assert(gives(args[last], last, last, names[last]));
                    }
                    assert(before.len() == last);
                }
                assert(gives(all[before.len() as int], before.len() as int, last, names[last]));
            }
        }
        if !named_any(args) && !given(args, last, names[last]) {
            if args.len() > last {
                assert(args[last] is Unnamed);
                assert(gives(args[last], last, last, names[last]));
            }
        }
        if !named_any(args) && given(args, last, names[last]) {
            let place = choose|place: int|
                0 <= place < args.len() && gives(#[trigger] args[place], place, last, names[last]);
            assert(args[place] is Unnamed);
        }
    }
}

/// The arguments of a call once those that it leaves out stand behind them.
pub open spec fn completed_call(
    parts: Seq<Option<Named>>,
    list: Option<(bool, usize)>,
    args: Seq<Argument>,
) -> Seq<Argument> {
    match looked_up(parts) {
        Some(name) => match (parameters(name), list) {
            (Some(arguments), Some((treated, clauses))) => {
                let names = texts(arguments);
                let first = first_optional(name, names.len() as int);
                if treated || clauses > 0 || !named_any(args) && args.len() < first {
                    args
                } else {
                    completed(args, names, first, names.len() as int)
                }
            },
            _ => args,
        },
        None => args,
    }
}

/// A call that was filled is not filled again.
pub proof fn filled_calls_stay(
    parts: Seq<Option<Named>>,
    list: Option<(bool, usize)>,
    args: Seq<Argument>,
)
    ensures
        filled(parts, list, completed_call(parts, list, args)).len() == 0,
{
    if let Some(name) = looked_up(parts) {
        if let (Some(arguments), Some((treated, clauses))) = (parameters(name), list) {
            let names = texts(arguments);
            let count = names.len() as int;
            let first = first_optional(name, count);
            if !(treated || clauses > 0 || !named_any(args) && args.len() < first) {
                reveal_strlit("noul");
                reveal_strlit("ask");
                assert("noul"@.len() != "ask"@.len());
                let all = completed(args, names, first, count);
                completed_gives(args, names, first, count);
                nothing_left(all, names, first, count);
            }
        }
    }
}

/// A query whose calls read as those of a query that was filled is not filled again.
pub proof fn filled_queries_stay(first: Seq<char>, second: Seq<char>)
    requires
        sql_names(first) is Ok,
        sql_names(second) == sql_names(first),
        sql_lists(second) == sql_lists(first),
        forall|i: int|
            0 <= i < sql_names(first)->Ok_0.len() ==> #[trigger] sql_arguments(second)[i]
                == completed_call(
                sql_names(first)->Ok_0[i],
                sql_lists(first)[i],
                sql_arguments(first)[i],
            ),
    ensures
        !any_filled(
            all_filled(sql_names(second)->Ok_0, sql_lists(second), sql_arguments(second)),
        ),
{
    let names = sql_names(first)->Ok_0;
    let lists = sql_lists(first);
    let fills = all_filled(names, lists, sql_arguments(second));
    assert forall|i: int| 0 <= i < fills.len() implies (#[trigger] fills[i]).len() == 0 by {
        assert(sql_arguments(second)[i] == completed_call(names[i], lists[i], sql_arguments(first)[i]));
        filled_calls_stay(names[i], lists[i], sql_arguments(first)[i]);
    }
}

/// Where all parameters between two places are given, none is left out.
proof fn nothing_left(args: Seq<Argument>, names: Seq<Seq<char>>, first: int, count: int)
    requires
        0 <= first,
        forall|i: int| first <= i < count ==> given(args, i, #[trigger] names[i]),
    ensures
        defaults(args, names, first, count).len() == 0,
    decreases count,
{
    if first < count && 0 < count {
        nothing_left(args, names, first, count - 1);
        assert(given(args, count - 1, names[count - 1]));
    }
}

} // verus!
