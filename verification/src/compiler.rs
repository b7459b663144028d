//! The compiler driver, as far as it decides and computes: from the lines
//! of a source to the instructions of its program. Reading the source,
//! writing the output and running the linker are left to the caller, who
//! passes in what the file system said.

use crate::builder::{
    build_spec, buildable, errors_view, lower_all, program_of, try_gen_ast, AST,
};
use crate::codegen::{
    instructions_view, CodegenError, CodegenErrorView, Instruction, InstructionView, SymbolView,
};
use crate::lexer::{lex, lex_spec, lines_view, list_tokens, listing, TokenView};
use crate::parser::{ParseError, ParseErrorView};
use crate::patterns::PatternRegistry;
use crate::text::byte_len;
use vstd::prelude::*;
use vstd::string::*;

verus! {

/// The complaint about a source path that cannot be compiled, if there is
/// one: the path does not exist, or it is no regular file.
pub open spec fn path_complaint(path: Seq<char>, exists: bool, is_file: bool) -> Option<Seq<char>> {
    if !exists {
        Some(path + " does not exist"@)
    } else if !is_file {
        Some(path + " is not a file"@)
    } else {
        None
    }
}

/// Decides whether a source path can be read, given whether it exists and
/// whether it is a regular file. The error is the message for the user.
pub fn check_file_existence(path: &str, exists: bool, is_file: bool) -> (out: Result<(), String>)
    ensures
        out is Ok <==> exists && is_file,
        out matches Err(message) ==> Some(message@) == path_complaint(path@, exists, is_file),
{
    if !exists {
        let mut message = String::from_str(path);
        message.append(" does not exist");
        return Err(message);
    }
    if !is_file {
        let mut message = String::from_str(path);
        message.append(" is not a file");
        return Err(message);
    }
    Ok(())
}

/// The first step of a compile-and-run: the source path is checked and
/// nothing else is done yet. Returns the complaint to print, if any.
pub fn run_compiler_tmp(path: &str, exists: bool, is_file: bool) -> (out: Option<String>)
    ensures
        out is None <==> exists && is_file,
        out matches Some(message) ==> Some(message@) == path_complaint(path@, exists, is_file),
{
    match check_file_existence(path, exists, is_file) {
        Ok(()) => None,
        Err(message) => Some(message),
    }
}

/// What to do about the output path of a build.
#[derive(Debug, Clone, Copy, PartialEq, Eq, Structural)]
pub enum OutputPlan {
    /// The path names the output file itself.
    AsFile,
    /// The path names a directory; the output goes into it under the name
    /// of the source. `create` says that the directory has to be made first.
    IntoDirectory { create: bool },
    /// The path names a directory that cannot be made, because a file of
    /// that name is in the way.
    Refused,
}

/// The complaint about an output directory that cannot be made.
pub const DIRECTORY_IN_THE_WAY: &'static str =
    "Cannot create directory: File with that name already exists";

/// A path that ends in a slash names a directory.
pub open spec fn names_directory(out: Seq<char>) -> bool {
    out.len() > 0 && out.last() == '/'
}

/// The plan for an output path, given whether the path exists and whether
/// the path without its last character exists.
pub open spec fn output_plan(out: Seq<char>, exists: bool, stem_exists: bool) -> OutputPlan {
    if !names_directory(out) {
        OutputPlan::AsFile
    } else if exists {
        OutputPlan::IntoDirectory { create: false }
    } else if stem_exists {
        OutputPlan::Refused
    } else {
        OutputPlan::IntoDirectory { create: true }
    }
}

/// Decides what to do about the output path of a build.
pub fn plan_output(out: &str, exists: bool, stem_exists: bool) -> (plan: OutputPlan)
    ensures
        plan == output_plan(out@, exists, stem_exists),
{
    let n = out.unicode_len();
    if n == 0 || out.get_char(n - 1) != '/' {
        OutputPlan::AsFile
    } else if exists {
        OutputPlan::IntoDirectory { create: false }
    } else if stem_exists {
        OutputPlan::Refused
    } else {
        OutputPlan::IntoDirectory { create: true }
    }
}

/// Why a source does not compile.
#[derive(Debug, PartialEq, Eq)]
pub enum CompileError {
    /// The source has syntax errors; these are all of them, in source order.
    Syntax(Vec<ParseError>),
    /// A statement cannot be lowered.
    Codegen(CodegenError),
}

/// The mathematical value of a [`CompileError`].
pub enum CompileErrorView {
    Syntax(Seq<ParseErrorView>),
    Codegen(CodegenErrorView),
}

impl View for CompileError {
    type V = CompileErrorView;

    open spec fn view(&self) -> CompileErrorView {
        match self {
            CompileError::Syntax(errors) => CompileErrorView::Syntax(errors_view(errors@)),
            CompileError::Codegen(error) => CompileErrorView::Codegen(error@),
        }
    }
}

/// What compiling a source gives.
#[derive(Debug)]
pub struct Compilation {
    /// The listing of the token stream, where it was asked for.
    pub listing: Option<String>,
    /// Whether the backend is to run its optimizer.
    pub optimize: bool,
    /// The instructions of the program, or why there are none. `None` where
    /// a literal of the source cannot be read.
    pub outcome: Option<Result<Vec<Instruction>, CompileError>>,
}

/// The program of a token stream: any syntax error stops the compilation
/// before a statement is lowered; otherwise the statements are lowered in
/// order, from an empty symbol table.
pub open spec fn compile_tokens_spec(tokens: Seq<TokenView>) -> Result<
    Seq<InstructionView>,
    CompileErrorView,
> {
    match build_spec(tokens) {
        Err(errors) => Err(CompileErrorView::Syntax(errors)),
        Ok(statements) => {
            let progress = lower_all(statements, Seq::<SymbolView>::empty());
            match progress.error {
                Some(error) => Err(CompileErrorView::Codegen(error)),
                None => Ok(program_of(progress.instructions)),
            }
        },
    }
}

/// The program of a source, given as its lines.
pub open spec fn compile_spec(lines: Seq<Seq<char>>) -> Result<
    Seq<InstructionView>,
    CompileErrorView,
> {
    compile_tokens_spec(lex_spec(lines))
}

/// The mathematical value of the outcome of a compilation.
pub open spec fn outcome_view(outcome: Result<Vec<Instruction>, CompileError>) -> Result<
    Seq<InstructionView>,
    CompileErrorView,
> {
    match outcome {
        Ok(instructions) => Ok(instructions_view(instructions@)),
        Err(error) => Err(error@),
    }
}

/// Whether the backend runs its optimizer: only at level 0.
pub open spec fn optimizes(unoptimization_level: u8) -> bool {
    unoptimization_level == 0
}

/// Compiles a source, given as its lines: tokenizes it, lists the tokens if
/// asked to, parses every line, and lowers the statements if no line has a
/// syntax error. There is no outcome where a literal of the source cannot
/// be read.
pub fn run_compiler(
    registry: &PatternRegistry,
    lines: &Vec<String>,
    emit_lexer: bool,
    unoptimization_level: u8,
) -> (done: Compilation)
    requires
        forall|i: int| 0 <= i < lines.len() ==> byte_len((#[trigger] lines@[i])@) < usize::MAX,
    ensures
        done.optimize == optimizes(unoptimization_level),
        done.listing is Some <==> emit_lexer,
        done.listing matches Some(text) ==> text@ == listing(lex_spec(lines_view(lines@))) + "\n"@,
        done.outcome is Some <==> buildable(lex_spec(lines_view(lines@))),
        done.outcome matches Some(outcome) ==> outcome_view(outcome) == compile_spec(
            lines_view(lines@),
        ),
{
    let tokenized = lex(registry, lines);
    let listing = if emit_lexer {
        Some(list_tokens(&tokenized))
    } else {
        None
    };
    let optimize = unoptimization_level == 0;
    let outcome = match try_gen_ast(&tokenized) {
        None => None,
        Some(Err(errors)) => Some(Err(CompileError::Syntax(errors))),
        Some(Ok(ast)) => {
            let mut program = AST { ast };
            match program.compile_ll() {
                Ok(instructions) => Some(Ok(instructions)),
                Err(error) => Some(Err(CompileError::Codegen(error))),
            }
        },
    };
    Compilation { listing, optimize, outcome }
}

} // verus!
