use vstd::prelude::*;

use crate::error::Error;
use crate::lexer::{
    expect_at, lemma_line_of_monotone, lemma_scan_advances, lemma_word_has_text, line_of,
    skip_newlines, token_at, token_end, Lexeme, Lexer, TokenType,
};

verus! {

/// A reference to a named variable, with the line of its `$`.
#[derive(Debug)]
pub struct Variable {
    pub line: usize,
    pub name: String,
}

/// `$name = "literal"`, with the line of its `$`.
#[derive(Debug)]
pub struct Assignment {
    pub line: usize,
    pub var: Variable,
    pub string: String,
}

/// `print($name)`, with the line of the `print` keyword.
#[derive(Debug)]
pub struct Print {
    pub line: usize,
    pub var: Variable,
}

/// A statement of a program.
#[derive(Debug)]
pub enum Statement {
    Assignment(Assignment),
    Print(Print),
}

pub struct VariableModel {
    pub line: usize,
    pub name: Seq<char>,
}

pub struct AssignmentModel {
    pub line: usize,
    pub var: VariableModel,
    pub value: Seq<char>,
}

pub struct PrintModel {
    pub line: usize,
    pub var: VariableModel,
}

pub enum StatementModel {
    Assign(AssignmentModel),
    Print(PrintModel),
}

impl View for Variable {
    type V = VariableModel;

    open spec fn view(&self) -> VariableModel {
        VariableModel { line: self.line, name: self.name@ }
    }
}

impl View for Assignment {
    type V = AssignmentModel;

    open spec fn view(&self) -> AssignmentModel {
        AssignmentModel { line: self.line, var: self.var@, value: self.string@ }
    }
}

impl View for Print {
    type V = PrintModel;

    open spec fn view(&self) -> PrintModel {
        PrintModel { line: self.line, var: self.var@ }
    }
}

impl View for Statement {
    type V = StatementModel;

    open spec fn view(&self) -> StatementModel {
        match self {
            Statement::Assignment(a) => StatementModel::Assign(a@),
            Statement::Print(p) => StatementModel::Print(p@),
        }
    }
}

pub open spec fn statements_view(s: Seq<Statement>) -> Seq<StatementModel> {
    s.map_values(|x: Statement| x@)
}

/// `r` is what a parsing function returns for `expected`, the parse from the
/// cursor before the call, where `cursor` is the cursor after it.
pub open spec fn parsed<T: View>(
    r: Result<T, Error>,
    expected: Result<(T::V, int), Error>,
    cursor: int,
) -> bool {
    match expected {
        Ok((v, q)) => r is Ok && r->Ok_0@ == v && cursor == q,
        Err(e) => r is Err && r->Err_0 == e,
    }
}

/// The position after the ignorable tokens that start at `p`.
pub open spec fn skip_ignored(text: Seq<char>, p: int) -> int
    decreases text.len() - p,
    via skip_ignored_decreases
{
    match token_at(text, p) {
        Ok(t) => if t.kind == TokenType::Ignored {
            skip_ignored(text, token_end(text, p))
        } else {
            p
        },
        Err(_) => p,
    }
}

#[via_fn]
proof fn skip_ignored_decreases(text: Seq<char>, p: int) {
    if p <= text.len() {
        lemma_scan_advances(text, p);
    }
}

/// Zero or more ignorable tokens from `p`: the position of the token after
/// them, or the error met in reading that token.
pub open spec fn ignore_at(text: Seq<char>, p: int) -> Result<((), int), Error> {
    let q = skip_ignored(text, p);
    match token_at(text, q) {
        Ok(_) => Ok(((), q)),
        Err(e) => Err(e),
    }
}

/// The text of a token of kind `kind` at `p`.
pub open spec fn word_at(text: Seq<char>, p: int, kind: TokenType) -> Result<
    (Seq<char>, int),
    Error,
> {
    match expect_at(text, p, kind) {
        Ok(t) => Ok((t.text->Some_0, token_end(text, p))),
        Err(e) => Err(e),
    }
}

/// `variable := "$" NAME ignorable*`
pub open spec fn variable_at(text: Seq<char>, p: int) -> Result<(VariableModel, int), Error> {
    match expect_at(text, p, TokenType::VarPrefix) {
        Err(e) => Err(e),
        Ok(prefix) => match word_at(text, token_end(text, p), TokenType::Name) {
            Err(e) => Err(e),
            Ok((name, p1)) => match ignore_at(text, p1) {
                Err(e) => Err(e),
                Ok((_, p2)) => Ok((VariableModel { line: prefix.line, name }, p2)),
            },
        },
    }
}

/// `assignment := variable "=" ignorable* STRING ignorable*`
pub open spec fn assignment_at(text: Seq<char>, p: int) -> Result<(AssignmentModel, int), Error> {
    match variable_at(text, p) {
        Err(e) => Err(e),
        Ok((var, p1)) => match expect_at(text, p1, TokenType::Equal) {
            Err(e) => Err(e),
            Ok(_) => match ignore_at(text, token_end(text, p1)) {
                Err(e) => Err(e),
                Ok((_, p2)) => match word_at(text, p2, TokenType::String) {
                    Err(e) => Err(e),
                    Ok((value, p3)) => match ignore_at(text, p3) {
                        Err(e) => Err(e),
                        Ok((_, p4)) => Ok((AssignmentModel { line: var.line, var, value }, p4)),
                    },
                },
            },
        },
    }
}

/// `print := "print" ignorable* "(" ignorable* variable ")" ignorable*`
pub open spec fn print_at(text: Seq<char>, p: int) -> Result<(PrintModel, int), Error> {
    match expect_at(text, p, TokenType::Print) {
        Err(e) => Err(e),
        Ok(keyword) => match ignore_at(text, token_end(text, p)) {
            Err(e) => Err(e),
            Ok((_, p1)) => match expect_at(text, p1, TokenType::LeftBracket) {
                Err(e) => Err(e),
                Ok(_) => match ignore_at(text, token_end(text, p1)) {
                    Err(e) => Err(e),
                    Ok((_, p2)) => match variable_at(text, p2) {
                        Err(e) => Err(e),
                        Ok((var, p3)) => match expect_at(text, p3, TokenType::RightBracket) {
                            Err(e) => Err(e),
                            Ok(_) => match ignore_at(text, token_end(text, p3)) {
                                Err(e) => Err(e),
                                Ok((_, p4)) => Ok((PrintModel { line: keyword.line, var }, p4)),
                            },
                        },
                    },
                },
            },
        },
    }
}

/// `statement := print | assignment`, chosen by the first token.
pub open spec fn statement_at(text: Seq<char>, p: int) -> Result<(StatementModel, int), Error> {
    match token_at(text, p) {
        Err(e) => Err(e),
        Ok(t) => if t.kind == TokenType::Print {
            match print_at(text, p) {
                Ok((s, q)) => Ok((StatementModel::Print(s), q)),
                Err(e) => Err(e),
            }
        } else if t.kind == TokenType::VarPrefix {
            match assignment_at(text, p) {
                Ok((s, q)) => Ok((StatementModel::Assign(s), q)),
                Err(e) => Err(e),
            }
        } else {
            Err(Error::UnexpectedStatement { found: t.kind, line: t.line })
        },
    }
}

/// `program := statement* EOF`, from position `p`.
pub open spec fn program_at(text: Seq<char>, p: int) -> Result<Seq<StatementModel>, Error>
    decreases text.len() - p,
    via program_at_decreases
{
    match token_at(text, p) {
        Err(e) => Err(e),
        Ok(t) => if t.kind == TokenType::Eof {
            Ok(Seq::empty())
        } else {
            match statement_at(text, p) {
                Err(e) => Err(e),
                Ok((s, q)) => match program_at(text, q) {
                    Err(e) => Err(e),
                    Ok(rest) => Ok(seq![s] + rest),
                },
            }
        },
    }
}

#[via_fn]
proof fn program_at_decreases(text: Seq<char>, p: int) {
    if p <= text.len() {
        lemma_statement_advances(text, p);
    } else {
        lemma_scan_advances(text, text.len() as int);
    }
}

/// The statements of a whole source text.
pub open spec fn program(text: Seq<char>) -> Result<Seq<StatementModel>, Error> {
    program_at(text, 0)
}

pub open spec fn prepend(
    first: Seq<StatementModel>,
    r: Result<Seq<StatementModel>, Error>,
) -> Result<Seq<StatementModel>, Error> {
    match r {
        Ok(rest) => Ok(first + rest),
        Err(e) => Err(e),
    }
}

proof fn lemma_skip_ignored(text: Seq<char>, p: int)
    requires
        p <= text.len(),
    ensures
        p <= skip_ignored(text, p) <= text.len(),
    decreases text.len() - p,
{
    lemma_scan_advances(text, p);
    if token_at(text, p) is Ok && token_at(text, p)->Ok_0.kind == TokenType::Ignored {
        lemma_skip_ignored(text, token_end(text, p));
    }
}

proof fn lemma_ignore_advances(text: Seq<char>, p: int)
    requires
        p <= text.len(),
    ensures
        ignore_at(text, p) is Ok ==> p <= ignore_at(text, p)->Ok_0.1 <= text.len(),
{
    lemma_skip_ignored(text, p);
}

proof fn lemma_variable_advances(text: Seq<char>, p: int)
    requires
        p <= text.len(),
    ensures
        variable_at(text, p) is Ok ==> p < token_end(text, p) <= variable_at(text, p)->Ok_0.1 <= text.len(),
{
    lemma_scan_advances(text, p);
    if expect_at(text, p, TokenType::VarPrefix) is Ok {
        let p1 = token_end(text, p);
        lemma_scan_advances(text, p1);
        if expect_at(text, p1, TokenType::Name) is Ok {
            lemma_ignore_advances(text, token_end(text, p1));
        }
    }
}

proof fn lemma_assignment_advances(text: Seq<char>, p: int)
    requires
        p <= text.len(),
    ensures
        assignment_at(text, p) is Ok ==> p < token_end(text, p) <= assignment_at(text, p)->Ok_0.1 <= text.len(),
{
    lemma_variable_advances(text, p);
    if variable_at(text, p) is Ok {
        let p1 = variable_at(text, p)->Ok_0.1;
        lemma_scan_advances(text, p1);
        if expect_at(text, p1, TokenType::Equal) is Ok {
            lemma_ignore_advances(text, token_end(text, p1));
            if ignore_at(text, token_end(text, p1)) is Ok {
                let p2 = ignore_at(text, token_end(text, p1))->Ok_0.1;
                lemma_scan_advances(text, p2);
                if expect_at(text, p2, TokenType::String) is Ok {
                    lemma_ignore_advances(text, token_end(text, p2));
                }
            }
        }
    }
}

proof fn lemma_print_advances(text: Seq<char>, p: int)
    requires
        p <= text.len(),
    ensures
        print_at(text, p) is Ok ==> p < token_end(text, p) <= print_at(text, p)->Ok_0.1 <= text.len(),
{
    lemma_scan_advances(text, p);
    if expect_at(text, p, TokenType::Print) is Ok {
        lemma_ignore_advances(text, token_end(text, p));
        if ignore_at(text, token_end(text, p)) is Ok {
            let p1 = ignore_at(text, token_end(text, p))->Ok_0.1;
            lemma_scan_advances(text, p1);
            if expect_at(text, p1, TokenType::LeftBracket) is Ok {
                lemma_ignore_advances(text, token_end(text, p1));
                if ignore_at(text, token_end(text, p1)) is Ok {
                    let p2 = ignore_at(text, token_end(text, p1))->Ok_0.1;
                    lemma_variable_advances(text, p2);
                    if variable_at(text, p2) is Ok {
                        let p3 = variable_at(text, p2)->Ok_0.1;
                        lemma_scan_advances(text, p3);
                        if expect_at(text, p3, TokenType::RightBracket) is Ok {
                            lemma_ignore_advances(text, token_end(text, p3));
                        }
                    }
                }
            }
        }
    }
}

/// A statement that parses ends after its start and within the text.
pub proof fn lemma_statement_advances(text: Seq<char>, p: int)
    requires
        p <= text.len(),
    ensures
        statement_at(text, p) is Ok ==> p < statement_at(text, p)->Ok_0.1 <= text.len(),
        statement_at(text, p) is Ok ==> skip_newlines(text, p) < statement_at(text, p)->Ok_0.1,
        statement_at(text, p) is Ok ==> statement_line(statement_at(text, p)->Ok_0.0) == line_of(
            text,
            skip_newlines(text, p),
        ) as usize,
{
    lemma_scan_advances(text, p);
    lemma_print_advances(text, p);
    lemma_assignment_advances(text, p);
}

/// The line a statement starts on.
pub open spec fn statement_line(s: StatementModel) -> usize {
    match s {
        StatementModel::Assign(a) => a.line,
        StatementModel::Print(p) => p.line,
    }
}

proof fn lemma_program_lines(text: Seq<char>, p: int)
    requires
        0 <= p <= text.len(),
        text.len() <= usize::MAX,
    ensures
        program_at(text, p) is Ok ==> {
            let stmts = program_at(text, p)->Ok_0;
            &&& forall|i: int|
                0 <= i < stmts.len() ==> line_of(text, p) <= statement_line(#[trigger] stmts[i])
            &&& forall|i: int, j: int|
                0 <= i < j < stmts.len() ==> statement_line(stmts[i]) <= statement_line(stmts[j])
        },
    decreases text.len() - p,
{
    lemma_scan_advances(text, p);
    lemma_statement_advances(text, p);
    if program_at(text, p) is Ok && token_at(text, p)->Ok_0.kind != TokenType::Eof {
        let (s, q) = statement_at(text, p)->Ok_0;
        let sn = skip_newlines(text, p);
        lemma_program_lines(text, q);
        lemma_line_of_monotone(text, p, sn);
        lemma_line_of_monotone(text, sn, q);
        lemma_line_of_monotone(text, q, text.len() as int);
        let rest = program_at(text, q)->Ok_0;
        let stmts = program_at(text, p)->Ok_0;
        assert(stmts == seq![s] + rest);
        assert forall|i: int, j: int| 0 <= i < j < stmts.len() implies statement_line(stmts[i])
            <= statement_line(stmts[j]) by {
            if i == 0 {
                assert(stmts[j] == rest[j - 1]);
            } else {
                assert(stmts[i] == rest[i - 1]);
                assert(stmts[j] == rest[j - 1]);
            }
        }
        assert forall|i: int| 0 <= i < stmts.len() implies line_of(text, p) <= statement_line(
            #[trigger] stmts[i],
        ) by {
            if i > 0 {
                assert(stmts[i] == rest[i - 1]);
            }
        }
    }
}

/// Statements come out of the parser in the order in which they stand in the
/// text: their lines never decrease along the sequence.
pub proof fn lemma_statements_in_text_order(text: Seq<char>)
    requires
        text.len() <= usize::MAX,
    ensures
        program(text) is Ok ==> forall|i: int, j: int|
            0 <= i < j < program(text)->Ok_0.len() ==> statement_line(program(text)->Ok_0[i])
                <= statement_line(program(text)->Ok_0[j]),
{
    lemma_program_lines(text, 0);
}

/// `NAME`: the text of a name token.
pub fn parse_name(lexer: &mut Lexer) -> (r: Result<String, Error>)
    requires
        old(lexer).wf(),
    ensures
        final(lexer).wf(),
        final(lexer).text() == old(lexer).text(),
        parsed(r, word_at(old(lexer).text(), old(lexer).cursor(), TokenType::Name), final(lexer).cursor()),
{
    let t = lexer.next_token_is(TokenType::Name)?;
    proof {
        lemma_word_has_text(old(lexer).text(), old(lexer).cursor());
    }
    Ok(t.2.unwrap())
}

/// `STRING`: the text of a string literal.
pub fn parse_string(lexer: &mut Lexer) -> (r: Result<String, Error>)
    requires
        old(lexer).wf(),
    ensures
        final(lexer).wf(),
        final(lexer).text() == old(lexer).text(),
        parsed(r, word_at(old(lexer).text(), old(lexer).cursor(), TokenType::String), final(lexer).cursor()),
{
    let t = lexer.next_token_is(TokenType::String)?;
    proof {
        lemma_word_has_text(old(lexer).text(), old(lexer).cursor());
    }
    Ok(t.2.unwrap())
}

/// `ignorable*`: takes the ignorable tokens up to the next other token.
pub fn parse_ignore(lexer: &mut Lexer) -> (r: Result<(), Error>)
    requires
        old(lexer).wf(),
    ensures
        final(lexer).wf(),
        final(lexer).text() == old(lexer).text(),
        parsed(r, ignore_at(old(lexer).text(), old(lexer).cursor()), final(lexer).cursor()),
{
    let ghost text = lexer.text();
    let ghost start = lexer.cursor();
    loop
        invariant
            lexer.wf(),
            lexer.text() == text,
            text == old(lexer).text(),
            start == old(lexer).cursor(),
            skip_ignored(text, lexer.cursor()) == skip_ignored(text, start),
        decreases text.len() - lexer.cursor(),
    {
        proof {
            lexer.lemma_cursor_bound();
            lemma_scan_advances(text, lexer.cursor());
        }
        let t = lexer.lookahead()?;
        if t.0 != TokenType::Ignored {
            return Ok(());
        }
        lexer.next_token_is(TokenType::Ignored)?;
    }
}

/// `variable := "$" NAME ignorable*`
pub fn parse_variable(lexer: &mut Lexer) -> (r: Result<Variable, Error>)
    requires
        old(lexer).wf(),
    ensures
        final(lexer).wf(),
        final(lexer).text() == old(lexer).text(),
        parsed(r, variable_at(old(lexer).text(), old(lexer).cursor()), final(lexer).cursor()),
{
    let line = lexer.next_token_is(TokenType::VarPrefix)?.1;
    let name = parse_name(lexer)?;
    parse_ignore(lexer)?;
    Ok(Variable { line, name })
}

/// `assignment := variable "=" ignorable* STRING ignorable*`; its line is the
/// line of the variable's `$`.
pub fn parse_assignment(lexer: &mut Lexer) -> (r: Result<Assignment, Error>)
    requires
        old(lexer).wf(),
    ensures
        final(lexer).wf(),
        final(lexer).text() == old(lexer).text(),
        parsed(r, assignment_at(old(lexer).text(), old(lexer).cursor()), final(lexer).cursor()),
{
    let var = parse_variable(lexer)?;
    lexer.next_token_is(TokenType::Equal)?;
    parse_ignore(lexer)?;
    let string = parse_string(lexer)?;
    parse_ignore(lexer)?;
    let line = var.line;
    Ok(Assignment { line, var, string })
}

/// `print := "print" ignorable* "(" ignorable* variable ")" ignorable*`; its
/// line is the line of the keyword.
pub fn parse_print(lexer: &mut Lexer) -> (r: Result<Print, Error>)
    requires
        old(lexer).wf(),
    ensures
        final(lexer).wf(),
        final(lexer).text() == old(lexer).text(),
        parsed(r, print_at(old(lexer).text(), old(lexer).cursor()), final(lexer).cursor()),
{
    let line = lexer.next_token_is(TokenType::Print)?.1;
    parse_ignore(lexer)?;
    lexer.next_token_is(TokenType::LeftBracket)?;
    parse_ignore(lexer)?;
    let var = parse_variable(lexer)?;
    lexer.next_token_is(TokenType::RightBracket)?;
    parse_ignore(lexer)?;
    Ok(Print { line, var })
}

/// One statement, chosen by its first token: `print` or `$`.
pub fn parse_statement(lexer: &mut Lexer) -> (r: Result<Statement, Error>)
    requires
        old(lexer).wf(),
    ensures
        final(lexer).wf(),
        final(lexer).text() == old(lexer).text(),
        parsed(r, statement_at(old(lexer).text(), old(lexer).cursor()), final(lexer).cursor()),
{
    let t = lexer.lookahead()?;
    if t.0 == TokenType::Print {
        let s = parse_print(lexer)?;
        Ok(Statement::Print(s))
    } else if t.0 == TokenType::VarPrefix {
        let s = parse_assignment(lexer)?;
        Ok(Statement::Assignment(s))
    } else {
        Err(Error::UnexpectedStatement { found: t.0, line: t.1 })
    }
}

/// All statements up to the end of the source, in the order they stand.
pub fn parse(lexer: &mut Lexer) -> (r: Result<Vec<Statement>, Error>)
    requires
        old(lexer).wf(),
    ensures
        final(lexer).wf(),
        final(lexer).text() == old(lexer).text(),
        match program_at(old(lexer).text(), old(lexer).cursor()) {
            Ok(stmts) => r is Ok && statements_view(r->Ok_0@) == stmts,
            Err(e) => r is Err && r->Err_0 == e,
        },
{
    let ghost text = lexer.text();
    let ghost start = lexer.cursor();
    let mut statements: Vec<Statement> = Vec::new();
    loop
        invariant
            lexer.wf(),
            lexer.text() == text,
            text == old(lexer).text(),
            start == old(lexer).cursor(),
            program_at(text, start) == prepend(
                statements_view(statements@),
                program_at(text, lexer.cursor()),
            ),
        decreases text.len() - lexer.cursor(),
    {
        proof {
            lexer.lemma_cursor_bound();
            lemma_statement_advances(text, lexer.cursor());
        }
        let ghost done = statements_view(statements@);
        let t = lexer.lookahead()?;
        if t.0 == TokenType::Eof {
            assert(done + Seq::<StatementModel>::empty() =~= done);
            return Ok(statements);
        }
        let s = parse_statement(lexer)?;
        statements.push(s);
        proof {
            assert(statements_view(statements@) =~= done.push(s@));
            match program_at(text, lexer.cursor()) {
                Ok(rest) => {
                    assert(done + (seq![s@] + rest) =~= done.push(s@) + rest);
                },
                Err(_) => {},
            }
        }
    }
}

} // verus!
