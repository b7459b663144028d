//! The program builder: the token stream of a whole source becomes the list
//! of its statements, or the list of all its syntax errors; the statements
//! are then lowered to the instructions of the program.

use crate::ast::{statements_view, Statement, StatementView};
use crate::ast::ValueView;
use crate::codegen::{
    declare, distinct_names, extends, instructions_view, lemma_declare_extends,
    lemma_extends_keeps_slot, lemma_extends_transitive, lemma_lower_extends, lower, slot_of,
    CodegenError, CodegenErrorView, Instruction, InstructionView, ReturnValue, SymbolTable,
    SymbolView,
};
use crate::lexer::{
    all_tokens, copy_token, lemma_view_push, lex_line_spec, lex_spec, tokens_view,
    Token, TokenView, Tokenized,
};
use crate::stream::lemma_stream_ends_with_eol;
use crate::parser::{
    literals_readable, parse_spec, try_parse, ParseError, ParseErrorView,
};
use vstd::prelude::*;

verus! {

/// The views of a sequence of syntax errors.
pub open spec fn errors_view(errors: Seq<ParseError>) -> Seq<ParseErrorView> {
    errors.map_values(|e: ParseError| e@)
}

/// A parsed program: its statements in source order, and the table of its
/// variables, which lowering fills.
#[derive(Debug)]
pub struct ExprRoot {
    pub statements: Vec<Statement>,
    pub variables: SymbolTable,
}

/// How far a token stream is built: the statements and the syntax errors of
/// the lines that are closed, and the tokens of the line that is still open.
pub struct Built {
    pub statements: Seq<StatementView>,
    pub errors: Seq<ParseErrorView>,
    pub pending: Seq<TokenView>,
}

/// Builds a token stream, token by token. An `EOL` closes a line: the
/// tokens gathered since the last `EOL` are parsed into one statement or one
/// error. A comment is dropped. Any other token is gathered.
pub open spec fn build(tokens: Seq<TokenView>) -> Built
    decreases tokens.len(),
{
    if tokens.len() == 0 {
        Built { statements: Seq::empty(), errors: Seq::empty(), pending: Seq::empty() }
    } else {
        let before = build(tokens.drop_last());
        let t = tokens.last();
        if t.token == Token::EOL {
            match parse_spec(before.pending) {
                Ok(statement) => Built {
                    statements: before.statements.push(statement),
                    errors: before.errors,
                    pending: Seq::empty(),
                },
                Err(error) => Built {
                    statements: before.statements,
                    errors: before.errors.push(error),
                    pending: Seq::empty(),
                },
            }
        } else if t.token != Token::Comment {
            Built {
                statements: before.statements,
                errors: before.errors,
                pending: before.pending.push(t),
            }
        } else {
            before
        }
    }
}

/// Every line of the stream can be parsed: where a line is closed, the
/// literals that its statement is made from can be read.
pub open spec fn buildable(tokens: Seq<TokenView>) -> bool {
    forall|n: int|
        0 <= n < tokens.len() && (#[trigger] tokens[n]).token == Token::EOL ==> literals_readable(
            build(tokens.take(n)).pending,
        )
}

/// The mathematical value of what the builder returns.
pub open spec fn built_view(out: Result<ExprRoot, Vec<ParseError>>) -> Result<
    Seq<StatementView>,
    Seq<ParseErrorView>,
> {
    match out {
        Ok(root) => Ok(statements_view(root.statements@)),
        Err(errors) => Err(errors_view(errors@)),
    }
}

/// What the builder owes for a token stream: the statements of all its
/// lines if no line has a syntax error, and otherwise every syntax error, in
/// source order.
pub open spec fn build_spec(tokens: Seq<TokenView>) -> Result<
    Seq<StatementView>,
    Seq<ParseErrorView>,
> {
    if build(tokens).errors.len() == 0 {
        Ok(build(tokens).statements)
    } else {
        Err(build(tokens).errors)
    }
}

/// Builds the program of a token stream wherever every line can be parsed;
/// `None` where a literal cannot be read.
pub fn try_gen_ast(tokenized: &Vec<Tokenized>) -> (out: Option<Result<ExprRoot, Vec<ParseError>>>)
    ensures
        out is Some <==> buildable(tokens_view(tokenized@)),
        out matches Some(result) ==> built_view(result) == build_spec(tokens_view(tokenized@)),
        out matches Some(Ok(root)) ==> root.variables@ == Seq::<SymbolView>::empty(),
{
    let ghost all = tokens_view(tokenized@);
    let mut statements: Vec<Statement> = Vec::new();
    let mut errors: Vec<ParseError> = Vec::new();
    let mut tmp: Vec<Tokenized> = Vec::new();
    let mut i: usize = 0;
    assert(statements_view(statements@) =~= Seq::empty());
    assert(errors_view(errors@) =~= Seq::empty());
    assert(tokens_view(tmp@) =~= Seq::empty());
    while i < tokenized.len()
        invariant
            i <= tokenized.len(),
            all == tokens_view(tokenized@),
            build(all.take(i as int)) == (Built {
                statements: statements_view(statements@),
                errors: errors_view(errors@),
                pending: tokens_view(tmp@),
            }),
            forall|n: int|
                0 <= n < i && (#[trigger] all[n]).token == Token::EOL ==> literals_readable(
                    build(all.take(n)).pending,
                ),
        decreases tokenized.len() - i,
    {
        proof {
            assert(all.take(i + 1).drop_last() == all.take(i as int));
            assert(all[i as int] == tokenized@[i as int]@);
        }
        let token = &tokenized[i];
        if token.token == Token::EOL {
            match try_parse(&tmp) {
                None => {
                    return None;
                },
                Some(Ok(statement)) => {
                    let ghost before = statements_view(statements@);
                    statements.push(statement);
                    assert(statements_view(statements@) =~= before.push(statement@));
                },
                Some(Err(error)) => {
                    let ghost before = errors_view(errors@);
                    errors.push(error);
                    assert(errors_view(errors@) =~= before.push(error@));
                },
            }
            tmp.clear();
            assert(tokens_view(tmp@) =~= Seq::empty());
        } else if token.token != Token::Comment {
            let copy = copy_token(token);
            proof {
                lemma_view_push(tmp@, copy);
            }
            tmp.push(copy);
        }
        i += 1;
    }
    proof {
        assert(all.take(tokenized.len() as int) == all);
    }
    if errors.len() > 0 {
        Some(Err(errors))
    } else {
        Some(Ok(ExprRoot { statements, variables: SymbolTable::new() }))
    }
}

/// Whether every line of the token stream can be parsed.
pub fn can_build(tokenized: &Vec<Tokenized>) -> (out: bool)
    ensures
        out == buildable(tokens_view(tokenized@)),
{
    try_gen_ast(tokenized).is_some()
}

/// Builds the program of a token stream: the statements of its lines, or
/// all syntax errors if there is one.
pub fn gen_ast(tokenized: Vec<Tokenized>) -> (out: Result<ExprRoot, Vec<ParseError>>)
    requires
        buildable(tokens_view(tokenized@)),
    ensures
        built_view(out) == build_spec(tokens_view(tokenized@)),
        out matches Ok(root) ==> root.variables@ == Seq::<SymbolView>::empty(),
{
    try_gen_ast(&tokenized).unwrap()
}

/// How far a list of statements is lowered: the symbol table, the
/// instructions so far, and the error at which lowering stopped.
pub struct Progress {
    pub symbols: Seq<SymbolView>,
    pub instructions: Seq<InstructionView>,
    pub error: Option<CodegenErrorView>,
}

/// Lowers the statements in order, each against the symbol table that the
/// ones before it left. Lowering stops at the first statement that fails.
pub open spec fn lower_all(statements: Seq<StatementView>, symbols: Seq<SymbolView>) -> Progress
    decreases statements.len(),
{
    if statements.len() == 0 {
        Progress { symbols, instructions: Seq::empty(), error: None }
    } else {
        let before = lower_all(statements.drop_last(), symbols);
        if before.error is Some {
            before
        } else {
            match lower(statements.last(), before.symbols) {
                Ok(step) => Progress {
                    symbols: step.symbols,
                    instructions: before.instructions + step.instructions,
                    error: None,
                },
                Err(error) => Progress {
                    symbols: before.symbols,
                    instructions: before.instructions,
                    error: Some(error),
                },
            }
        }
    }
}

/// The exit status of a program that runs to its end.
pub const DEFAULT_EXIT_CODE: i64 = 42;

/// The instructions of a whole program: those of its statements, then the
/// return with the default exit status.
pub open spec fn program_of(instructions: Seq<InstructionView>) -> Seq<InstructionView> {
    instructions.push(
        InstructionView::Return { value: ReturnValue::Constant(DEFAULT_EXIT_CODE) },
    )
}

/// A program on its way to a backend.
#[derive(Debug)]
pub struct AST {
    pub ast: ExprRoot,
}

impl AST {
    /// Parses a token stream into a program.
    pub fn new(tokenized: Vec<Tokenized>) -> (out: Result<AST, Vec<ParseError>>)
        requires
            buildable(tokens_view(tokenized@)),
        ensures
            match build_spec(tokens_view(tokenized@)) {
                Ok(statements) => out matches Ok(program) && statements_view(
                    program.ast.statements@,
                ) == statements && program.ast.variables@ == Seq::<SymbolView>::empty(),
                Err(errors) => out matches Err(found) && errors_view(found@) == errors,
            },
    {
        match gen_ast(tokenized) {
            Ok(ast) => Ok(AST { ast }),
            Err(errors) => Err(errors),
        }
    }

    /// Lowers the statements of the program in order. The symbol table
    /// ends as the statements that were lowered left it.
    fn gen_code(&mut self) -> (out: Result<Vec<Instruction>, CodegenError>)
        ensures
            final(self).ast.statements == old(self).ast.statements,
            final(self).ast.variables@ == lower_all(
                statements_view(old(self).ast.statements@),
                old(self).ast.variables@,
            ).symbols,
            match lower_all(
                statements_view(old(self).ast.statements@),
                old(self).ast.variables@,
            ).error {
                None => out matches Ok(instructions) && instructions_view(instructions@)
                    == lower_all(
                    statements_view(old(self).ast.statements@),
                    old(self).ast.variables@,
                ).instructions,
                Some(error) => out matches Err(found) && found@ == error,
            },
    {
        let ghost all = statements_view(self.ast.statements@);
        let ghost start = self.ast.variables@;
        let mut out: Vec<Instruction> = Vec::new();
        let mut i: usize = 0;
        assert(instructions_view(out@) =~= Seq::empty());
        while i < self.ast.statements.len()
            invariant
                i <= self.ast.statements.len(),
                self.ast.statements == old(self).ast.statements,
                all == statements_view(self.ast.statements@),
                start == old(self).ast.variables@,
                lower_all(all.take(i as int), start) == (Progress {
                    symbols: self.ast.variables@,
                    instructions: instructions_view(out@),
                    error: None,
                }),
            decreases self.ast.statements.len() - i,
        {
            proof {
                assert(all.take(i + 1).drop_last() == all.take(i as int));
                assert(all[i as int] == self.ast.statements@[i as int]@);
            }
            let ghost before = instructions_view(out@);
            match self.ast.statements[i].gen_code(&mut self.ast.variables) {
                Ok(mut step) => {
                    let ghost added = instructions_view(step@);
                    out.append(&mut step);
                    assert(instructions_view(out@) =~= before + added);
                },
                Err(error) => {
                    proof {
                        assert(lower_all(all.take(i + 1), start).error == Some(error@));
                        lemma_lower_all_stops(all, start, i as int + 1);
                    }
                    return Err(error);
                },
            }
            i += 1;
        }
        proof {
            assert(all.take(self.ast.statements.len() as int) == all);
        }
        Ok(out)
    }

    /// Lowers the whole program: the instructions of its statements, in
    /// source order, closed by the return with the default exit status.
    /// Fails with the first statement that cannot be lowered.
    pub fn compile_ll(&mut self) -> (out: Result<Vec<Instruction>, CodegenError>)
        ensures
            final(self).ast.statements == old(self).ast.statements,
            final(self).ast.variables@ == lower_all(
                statements_view(old(self).ast.statements@),
                old(self).ast.variables@,
            ).symbols,
            match lower_all(
                statements_view(old(self).ast.statements@),
                old(self).ast.variables@,
            ).error {
                None => out matches Ok(instructions) && instructions_view(instructions@)
                    == program_of(
                    lower_all(
                        statements_view(old(self).ast.statements@),
                        old(self).ast.variables@,
                    ).instructions,
                ),
                Some(error) => out matches Err(found) && found@ == error,
            },
    {
        match self.gen_code() {
            Ok(mut instructions) => {
                let ghost before = instructions_view(instructions@);
                let last = Instruction::Return { value: ReturnValue::Constant(DEFAULT_EXIT_CODE) };
                instructions.push(last);
                assert(instructions_view(instructions@) =~= before.push(last@));
                Ok(instructions)
            },
            Err(error) => Err(error),
        }
    }
}

/// Once lowering has stopped at a statement, the statements behind it change
/// nothing.
pub proof fn lemma_lower_all_stops(statements: Seq<StatementView>, symbols: Seq<SymbolView>, n: int)
    requires
        0 <= n <= statements.len(),
        lower_all(statements.take(n), symbols).error is Some,
    ensures
        lower_all(statements, symbols) == lower_all(statements.take(n), symbols),
    decreases statements.len() - n,
{
    if n < statements.len() {
        assert(statements.take(n + 1).drop_last() == statements.take(n));
        lemma_lower_all_stops(statements, symbols, n + 1);
    } else {
        assert(statements.take(n) == statements);
    }
}

/// Lowering a list of statements keeps every symbol that the table held
/// before: the table only grows.
pub proof fn lemma_lower_all_extends(statements: Seq<StatementView>, symbols: Seq<SymbolView>)
    requires
        distinct_names(symbols),
    ensures
        extends(lower_all(statements, symbols).symbols, symbols),
        distinct_names(lower_all(statements, symbols).symbols),
    decreases statements.len(),
{
    if statements.len() == 0 {
        assert(symbols.take(symbols.len() as int) =~= symbols);
    } else {
        let before = lower_all(statements.drop_last(), symbols);
        lemma_lower_all_extends(statements.drop_last(), symbols);
        if before.error is None {
            lemma_lower_extends(statements.last(), before.symbols);
            if lower(statements.last(), before.symbols) is Ok {
                lemma_extends_transitive(
                    lower_all(statements, symbols).symbols,
                    before.symbols,
                    symbols,
                );
            }
        }
    }
}

/// The first assignment wins. Once a variable has been assigned, whatever
/// statements are lowered behind that, assignments to the same variable
/// among them, the variable keeps the slot and the value, and so the type,
/// that its first assignment gave it.
pub proof fn lemma_first_assignment_wins(
    symbols: Seq<SymbolView>,
    name: Seq<char>,
    first: ValueView,
    later: Seq<StatementView>,
)
    requires
        distinct_names(symbols),
        slot_of(symbols, name) is None,
    ensures
        ({
            let assigned = declare(symbols, name, first).symbols;
            let end = lower_all(later, assigned).symbols;
            &&& slot_of(assigned, name) == Some(symbols.len() as int)
            &&& slot_of(end, name) == Some(symbols.len() as int)
            &&& end[symbols.len() as int] == (SymbolView { name, value: first })
        }),
{
    let assigned = declare(symbols, name, first).symbols;
    lemma_declare_extends(symbols, name, first);
    assert(assigned.last() == (SymbolView { name, value: first }));
    lemma_lower_all_extends(later, assigned);
    lemma_extends_keeps_slot(lower_all(later, assigned).symbols, assigned, name);
}

/// Comments change nothing: a stream followed by comments is built like the
/// stream itself.
pub proof fn lemma_comments_are_dropped(before: Seq<TokenView>, comments: Seq<TokenView>)
    requires
        forall|i: int| 0 <= i < comments.len() ==> (#[trigger] comments[i]).token == Token::Comment,
    ensures
        build(before + comments) == build(before),
    decreases comments.len(),
{
    if comments.len() == 0 {
        assert(before + comments =~= before);
    } else {
        let rest = comments.drop_last();
        assert((before + comments).drop_last() =~= before + rest);
        assert((before + comments).last() == comments[comments.len() - 1]);
        assert forall|i: int| 0 <= i < rest.len() implies (#[trigger] rest[i]).token
            == Token::Comment by {
            assert(rest[i] == comments[i]);
        }
        lemma_comments_are_dropped(before, rest);
    }
}

/// A line that holds nothing but comments is the empty statement: where
/// the lines before it are closed, such a line adds the one statement
/// `NoOp` and no error.
pub proof fn lemma_comment_line_is_no_op(
    before: Seq<TokenView>,
    comments: Seq<TokenView>,
    eol: TokenView,
)
    requires
        build(before).pending.len() == 0,
        forall|i: int| 0 <= i < comments.len() ==> (#[trigger] comments[i]).token == Token::Comment,
        eol.token == Token::EOL,
    ensures
        build((before + comments).push(eol)) == (Built {
            statements: build(before).statements.push(StatementView::NoOp),
            errors: build(before).errors,
            pending: Seq::empty(),
        }),
{
    lemma_comments_are_dropped(before, comments);
    assert((before + comments).push(eol).drop_last() =~= before + comments);
    assert(build(before).pending =~= Seq::empty());
}

/// Tokens that close no line add no statement and no error.
pub proof fn lemma_open_line_adds_nothing(before: Seq<TokenView>, body: Seq<TokenView>)
    requires
        all_tokens(body, |t: TokenView| t.token != Token::EOL),
    ensures
        build(before + body).statements == build(before).statements,
        build(before + body).errors == build(before).errors,
    decreases body.len(),
{
    if body.len() == 0 {
        assert(before + body =~= before);
    } else {
        let rest = body.drop_last();
        assert((before + body).drop_last() =~= before + rest);
        assert((before + body).last() == body[body.len() - 1]);
        assert forall|i: int| 0 <= i < rest.len() implies (#[trigger] rest[i]).token
            != Token::EOL by {
            assert(rest[i] == body[i]);
        }
        lemma_open_line_adds_nothing(before, rest);
    }
}

/// The number of lines that are closed: statements and errors together.
pub open spec fn lines_built(tokens: Seq<TokenView>) -> nat {
    build(tokens).statements.len() + build(tokens).errors.len()
}

/// Each line of a source gives exactly one statement or one syntax error:
/// the stream of a source of `n` lines is built into `n` statements and
/// errors together, and no token is left over.
pub proof fn lemma_one_statement_per_line(lines: Seq<Seq<char>>)
    ensures
        lines_built(lex_spec(lines)) == lines.len(),
        build(lex_spec(lines)).pending.len() == 0,
    decreases lines.len(),
{
    if lines.len() > 0 {
        lemma_one_statement_per_line(lines.drop_last());
        let before = lex_spec(lines.drop_last());
        let line = lex_line_spec(lines.last(), (lines.len() - 1) as usize);
        lemma_stream_ends_with_eol(lines.last(), (lines.len() - 1) as usize);
        let body = line.drop_last();
        lemma_open_line_adds_nothing(before, body);
        assert(lex_spec(lines) =~= (before + body).push(line.last()));
        assert((before + body).push(line.last()).drop_last() =~= before + body);
    }
}

} // verus!
