use uff::ast::{DataType, DataTypeValue};
use uff::codegen::{Instruction, Operand, ReturnValue};
use uff::compiler::{
    check_file_existence, plan_output, run_compiler, run_compiler_tmp, CompileError, OutputPlan,
};
use uff::lexer::{lex, lex_line, list_tokens, Token, Tokenized};
use uff::parser::ParseErrorKind;
use uff::patterns::PatternRegistry;
use uff::text::{decimal, split_range, trim};

fn lines_of(source: &[&str]) -> Vec<String> {
    source.iter().map(|l| String::from(*l)).collect()
}

#[test]
fn source_path_must_exist() {
    assert_eq!(
        check_file_existence("a.uff", false, false),
        Err(String::from("a.uff does not exist"))
    );
    assert_eq!(
        run_compiler_tmp("a.uff", false, true),
        Some(String::from("a.uff does not exist"))
    );
}

#[test]
fn source_path_must_be_a_file() {
    assert_eq!(
        check_file_existence("src/", true, false),
        Err(String::from("src/ is not a file"))
    );
    assert_eq!(
        run_compiler_tmp("src/", true, false),
        Some(String::from("src/ is not a file"))
    );
}

#[test]
fn existing_file_can_be_compiled() {
    assert_eq!(check_file_existence("a.uff", true, true), Ok(()));
    assert_eq!(run_compiler_tmp("a.uff", true, true), None);
}

#[test]
fn output_path_without_slash_is_the_file() {
    assert_eq!(plan_output("bin/out", false, false), OutputPlan::AsFile);
    assert_eq!(plan_output("bin/out", true, true), OutputPlan::AsFile);
    assert_eq!(plan_output("", false, false), OutputPlan::AsFile);
}

#[test]
fn output_directory_is_made_where_it_is_missing() {
    assert_eq!(
        plan_output("./bin/", false, false),
        OutputPlan::IntoDirectory { create: true }
    );
    assert_eq!(
        plan_output("./bin/", true, true),
        OutputPlan::IntoDirectory { create: false }
    );
}

#[test]
fn output_directory_cannot_replace_a_file() {
    assert_eq!(plan_output("./bin/", false, true), OutputPlan::Refused);
}

#[test]
fn numbers_are_written_in_decimal() {
    assert_eq!(decimal(0), "0");
    assert_eq!(decimal(7), "7");
    assert_eq!(decimal(10), "10");
    assert_eq!(decimal(1234567890), "1234567890");
    assert_eq!(decimal(usize::MAX), format!("{}", usize::MAX));
}

#[test]
fn trimming_removes_white_space_at_both_ends() {
    assert_eq!(trim("  a b \t"), "a b");
    assert_eq!(trim("ab"), "ab");
    assert_eq!(trim(" \u{a0}\u{2003}x\u{3000}\u{85}"), "x");
    assert_eq!(trim("   "), "");
    assert_eq!(trim(""), "");
    for text in ["  a b \t", "\u{1680}q\u{2028}", "\u{200b}z ", " \u{180e} "] {
        assert_eq!(trim(text), text.trim());
    }
}

#[test]
fn ranges_are_cut_by_bytes() {
    assert_eq!(split_range(&0, &2, "größe"), "gr");
    assert_eq!(split_range(&2, &6, "größe"), "öß");
    assert_eq!(split_range(&3, &3, "abc"), "");
}

#[test]
fn token_is_shown_with_its_place() {
    let token = Tokenized {
        line: 12,
        start: 3,
        stop: 105,
        token: Token::Ident,
        value: String::from("name"),
    };
    assert_eq!(token.to_text(), "12: 3:105 - Ident name");
    assert_eq!(Token::TheAnswerIs.name(), "TheAnswerIs");
    assert_eq!(Token::EOL.name(), format!("{:?}", Token::EOL));
}

#[test]
fn listing_shows_one_line_for_each_source_line() {
    let registry = PatternRegistry::new().unwrap();
    let tokens = lex(&registry, &lines_of(&["x should be 1", "say x <<a b>>"]));
    assert_eq!(
        list_tokens(&tokens),
        " :: Ident x :: Assign should be :: Integer 1\n :: Say say :: Ident x :: String a b\n\n"
    );
    assert_eq!(list_tokens(&Vec::new()), "\n");
}

#[test]
fn syntax_error_is_shown_with_its_place() {
    let registry = PatternRegistry::new().unwrap();
    let tokens = lex_line(&registry, "  the answer is 7 8", 4);
    let error = uff::parser::parse(&tokens).unwrap_err();
    assert_eq!(error.to_text(), "5:19: only one exit value allowed");
}

#[test]
fn compiler_gives_the_program_of_a_source() {
    let registry = PatternRegistry::new().unwrap();
    let lines = lines_of(&[
        "\" a program",
        "n should be 3",
        "say <<n is>> n",
        "the answer is n",
    ]);
    let done = run_compiler(&registry, &lines, false, 0);
    assert!(done.optimize);
    assert!(done.listing.is_none());
    assert_eq!(
        done.outcome.unwrap(),
        Ok(vec![
            Instruction::Declare {
                slot: 0,
                name: String::from("n"),
                data_type: DataType::Integer
            },
            Instruction::Store {
                slot: 0,
                value: DataTypeValue::Integer { value: 3 }
            },
            Instruction::Print {
                format: String::from("%s %d \n"),
                operands: vec![
                    Operand::Literal(DataTypeValue::String {
                        value: String::from("n is")
                    }),
                    Operand::Variable {
                        slot: 0,
                        data_type: DataType::Integer
                    },
                ],
            },
            Instruction::Return {
                value: ReturnValue::Variable(0)
            },
            Instruction::Return {
                value: ReturnValue::Constant(42)
            },
        ])
    );
}

#[test]
fn compiler_lists_the_tokens_where_asked() {
    let registry = PatternRegistry::new().unwrap();
    let done = run_compiler(&registry, &lines_of(&["say 1"]), true, 3);
    assert!(!done.optimize);
    assert_eq!(done.listing, Some(String::from(" :: Say say :: Integer 1\n\n")));
}

#[test]
fn syntax_errors_stop_the_compilation() {
    let registry = PatternRegistry::new().unwrap();
    let lines = lines_of(&["x should be <<s>>", "foo bar", "the answer is x", "42"]);
    let done = run_compiler(&registry, &lines, false, 0);
    match done.outcome.unwrap() {
        Err(CompileError::Syntax(errors)) => {
            assert_eq!(errors.len(), 2);
            assert_eq!(errors[0].kind, ParseErrorKind::MalformedAssignment);
            assert_eq!((errors[0].line, errors[0].column), (2, 1));
            assert_eq!(errors[1].kind, ParseErrorKind::InvalidFirstToken);
            assert_eq!((errors[1].line, errors[1].column), (4, 1));
        }
        other => panic!("{:?}", other),
    }
}

#[test]
fn exit_with_a_string_variable_stops_the_compilation() {
    let registry = PatternRegistry::new().unwrap();
    let lines = lines_of(&["x should be <<s>>", "the answer is x"]);
    let done = run_compiler(&registry, &lines, false, 0);
    match done.outcome.unwrap() {
        Err(CompileError::Codegen(error)) => {
            assert_eq!(error.message(), "exit value must be an integer");
        }
        other => panic!("{:?}", other),
    }
}

#[test]
fn number_out_of_range_cannot_be_compiled() {
    let registry = PatternRegistry::new().unwrap();
    let lines = lines_of(&["x should be 9223372036854775808"]);
    let done = run_compiler(&registry, &lines, true, 0);
    assert!(done.outcome.is_none());
    assert_eq!(
        done.listing,
        Some(String::from(
            " :: Ident x :: Assign should be :: Integer 9223372036854775808\n\n"
        ))
    );
    let lines = lines_of(&["x should be -9223372036854775808"]);
    assert!(run_compiler(&registry, &lines, false, 0).outcome.is_some());
}
