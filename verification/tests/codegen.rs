use uff::ast::{DataType, DataTypeValue, Expression, FloatLiteral, Statement};
use uff::builder::{can_build, gen_ast, AST};
use uff::codegen::{CodegenError, Instruction, Operand, ReturnValue, SymbolTable};
use uff::lexer::lex;
use uff::parser::ParseErrorKind;
use uff::patterns::PatternRegistry;

fn program(source: &[&str]) -> AST {
    let registry = PatternRegistry::new().unwrap();
    let lines: Vec<String> = source.iter().map(|l| String::from(*l)).collect();
    let tokens = lex(&registry, &lines);
    assert!(can_build(&tokens));
    AST::new(tokens).unwrap()
}

fn assign_int(name: &str, value: i64) -> Statement {
    Statement::AssignInteger {
        ident: String::from(name),
        value,
    }
}

#[test]
fn first_assignment_declares_and_stores() {
    let mut symbols = SymbolTable::new();
    let out = assign_int("x", 1).gen_code(&mut symbols).unwrap();
    assert_eq!(
        out,
        vec![
            Instruction::Declare {
                slot: 0,
                name: String::from("x"),
                data_type: DataType::Integer
            },
            Instruction::Store {
                slot: 0,
                value: DataTypeValue::Integer { value: 1 }
            },
        ]
    );
    assert_eq!(symbols.len(), 1);
    let name = String::from("x");
    assert_eq!(symbols.lookup(&name), Some(0));
    assert_eq!(symbols.get(0).value, DataTypeValue::Integer { value: 1 });
}

#[test]
fn second_assignment_changes_nothing() {
    let mut symbols = SymbolTable::new();
    assign_int("x", 1).gen_code(&mut symbols).unwrap();
    let out = assign_int("x", 2).gen_code(&mut symbols).unwrap();
    assert_eq!(out, Vec::new());
    assert_eq!(symbols.len(), 1);
    assert_eq!(symbols.get(0).value, DataTypeValue::Integer { value: 1 });
    assert_eq!(symbols.type_at(0), DataType::Integer);

    let again = Statement::AssignString {
        ident: String::from("x"),
        value: String::from("text"),
    };
    assert_eq!(again.gen_code(&mut symbols).unwrap(), Vec::new());
    assert_eq!(symbols.get(0).value, DataTypeValue::Integer { value: 1 });
    assert_eq!(symbols.type_at(0), DataType::Integer);
}

#[test]
fn variables_get_slots_in_the_order_of_declaration() {
    let mut symbols = SymbolTable::new();
    assign_int("a", 1).gen_code(&mut symbols).unwrap();
    let out = Statement::AssignFloat {
        ident: String::from("b"),
        value: FloatLiteral::read("2.5").unwrap(),
    }
    .gen_code(&mut symbols)
    .unwrap();
    assert_eq!(
        out[0],
        Instruction::Declare {
            slot: 1,
            name: String::from("b"),
            data_type: DataType::Float
        }
    );
    let out = Statement::AssignString {
        ident: String::from("c"),
        value: String::from("s"),
    }
    .gen_code(&mut symbols)
    .unwrap();
    assert_eq!(
        out[1],
        Instruction::Store {
            slot: 2,
            value: DataTypeValue::String {
                value: String::from("s")
            }
        }
    );
    assert_eq!(symbols.lookup(&String::from("b")), Some(1));
    assert_eq!(symbols.lookup(&String::from("zz")), None);
}

#[test]
fn exit_with_a_code_returns_it() {
    let mut symbols = SymbolTable::new();
    let out = Statement::ExitCode { code: 7 }.gen_code(&mut symbols).unwrap();
    assert_eq!(
        out,
        vec![Instruction::Return {
            value: ReturnValue::Constant(7)
        }]
    );
}

#[test]
fn exit_with_an_integer_variable_returns_its_slot() {
    let mut symbols = SymbolTable::new();
    assign_int("y", 5).gen_code(&mut symbols).unwrap();
    assign_int("x", 42).gen_code(&mut symbols).unwrap();
    let out = Statement::ExitVar {
        variable: String::from("x"),
    }
    .gen_code(&mut symbols)
    .unwrap();
    assert_eq!(
        out,
        vec![Instruction::Return {
            value: ReturnValue::Variable(1)
        }]
    );
    assert_eq!(symbols.get(1).value, DataTypeValue::Integer { value: 42 });
}

#[test]
fn exit_with_a_string_variable_fails() {
    let mut symbols = SymbolTable::new();
    Statement::AssignString {
        ident: String::from("x"),
        value: String::from("no number"),
    }
    .gen_code(&mut symbols)
    .unwrap();
    let error = Statement::ExitVar {
        variable: String::from("x"),
    }
    .gen_code(&mut symbols)
    .unwrap_err();
    assert_eq!(
        error,
        CodegenError::ExitValueNotInteger {
            variable: String::from("x")
        }
    );
    assert_eq!(error.message(), "exit value must be an integer");
    assert_eq!(symbols.len(), 1);
}

#[test]
fn exit_with_a_float_variable_fails() {
    let mut ast = program(&["x should be 1.5", "the answer is x"]);
    assert!(ast.compile_ll().is_err());
}

#[test]
fn exit_with_an_unknown_variable_emits_nothing() {
    let mut symbols = SymbolTable::new();
    let out = Statement::ExitVar {
        variable: String::from("nobody"),
    }
    .gen_code(&mut symbols)
    .unwrap();
    assert_eq!(out, Vec::new());
}

#[test]
fn print_renders_each_operand_by_its_type() {
    let mut symbols = SymbolTable::new();
    assign_int("n", 3).gen_code(&mut symbols).unwrap();
    Statement::AssignString {
        ident: String::from("s"),
        value: String::from("text"),
    }
    .gen_code(&mut symbols)
    .unwrap();
    let say = Statement::Say {
        expressions: vec![
            Expression::String(String::from("lit")),
            Expression::Ident(String::from("s")),
            Expression::Integer(-4),
            Expression::Ident(String::from("missing")),
            Expression::Float(FloatLiteral::read("0.5").unwrap()),
            Expression::Ident(String::from("n")),
        ],
    };
    let out = say.gen_code(&mut symbols).unwrap();
    assert_eq!(
        out,
        vec![Instruction::Print {
            format: String::from("%s %s %d %f %d \n"),
            operands: vec![
                Operand::Literal(DataTypeValue::String {
                    value: String::from("lit")
                }),
                Operand::Variable {
                    slot: 1,
                    data_type: DataType::String
                },
                Operand::Literal(DataTypeValue::Integer { value: -4 }),
                Operand::Literal(DataTypeValue::Float {
                    value: FloatLiteral::read("0.5").unwrap()
                }),
                Operand::Variable {
                    slot: 0,
                    data_type: DataType::Integer
                },
            ],
        }]
    );
}

#[test]
fn print_without_operands_prints_an_empty_line() {
    let mut symbols = SymbolTable::new();
    let out = Statement::Say {
        expressions: Vec::new(),
    }
    .gen_code(&mut symbols)
    .unwrap();
    assert_eq!(
        out,
        vec![Instruction::Print {
            format: String::from("\n"),
            operands: Vec::new()
        }]
    );
}

#[test]
fn empty_statement_emits_nothing() {
    let mut symbols = SymbolTable::new();
    assert_eq!(Statement::NoOp {}.gen_code(&mut symbols).unwrap(), Vec::new());
    assert_eq!(symbols.len(), 0);
}

#[test]
fn program_ends_with_the_default_exit_status() {
    let mut ast = program(&[]);
    assert_eq!(
        ast.compile_ll().unwrap(),
        vec![Instruction::Return {
            value: ReturnValue::Constant(42)
        }]
    );
}

#[test]
fn variable_assigned_twice_keeps_its_first_value() {
    let mut ast = program(&["x should be 1", "say x", "x should be 2", "x should be <<s>>"]);
    let out = ast.compile_ll().unwrap();
    assert_eq!(out.len(), 4);
    assert_eq!(
        out[1],
        Instruction::Store {
            slot: 0,
            value: DataTypeValue::Integer { value: 1 }
        }
    );
    assert_eq!(ast.ast.variables.len(), 1);
    assert_eq!(
        ast.ast.variables.get(0).value,
        DataTypeValue::Integer { value: 1 }
    );
    assert_eq!(ast.ast.variables.type_at(0), DataType::Integer);
}

#[test]
fn exit_with_variable_holding_42() {
    let mut ast = program(&["x should be 42", "the answer is x"]);
    let out = ast.compile_ll().unwrap();
    assert_eq!(
        out,
        vec![
            Instruction::Declare {
                slot: 0,
                name: String::from("x"),
                data_type: DataType::Integer
            },
            Instruction::Store {
                slot: 0,
                value: DataTypeValue::Integer { value: 42 }
            },
            Instruction::Return {
                value: ReturnValue::Variable(0)
            },
            Instruction::Return {
                value: ReturnValue::Constant(42)
            },
        ]
    );
}

#[test]
fn exit_with_string_variable_stops_the_compilation() {
    let mut ast = program(&["x should be <<seven>>", "the answer is x", "y should be 1"]);
    let error = ast.compile_ll().unwrap_err();
    assert_eq!(error.message(), "exit value must be an integer");
    assert_eq!(ast.ast.variables.len(), 1);
}

#[test]
fn builder_gathers_every_syntax_error() {
    let registry = PatternRegistry::new().unwrap();
    let lines = vec![
        String::from("x should be 1"),
        String::from("foo bar"),
        String::from("\" only a comment"),
        String::from("the answer is 7 8"),
        String::from("say x"),
    ];
    let tokens = lex(&registry, &lines);
    assert!(can_build(&tokens));
    let errors = gen_ast(tokens).unwrap_err();
    assert_eq!(errors.len(), 2);
    assert_eq!(errors[0].kind, ParseErrorKind::MalformedAssignment);
    assert_eq!(errors[0].line, 2);
    assert_eq!(errors[1].kind, ParseErrorKind::TooManyExitValues);
    assert_eq!(errors[1].line, 4);
}

#[test]
fn builder_gives_one_statement_for_each_line() {
    let ast = program(&["x should be 1", "", "\" comment", "say x \" trailing", "the answer is x"]);
    assert_eq!(
        ast.ast.statements,
        vec![
            assign_int("x", 1),
            Statement::NoOp {},
            Statement::NoOp {},
            Statement::Say {
                expressions: vec![Expression::Ident(String::from("x"))]
            },
            Statement::ExitVar {
                variable: String::from("x")
            },
        ]
    );
    assert_eq!(ast.ast.variables.len(), 0);
}

#[test]
fn literal_out_of_range_cannot_be_built() {
    let registry = PatternRegistry::new().unwrap();
    let lines = vec![String::from("x should be 99999999999999999999")];
    let tokens = lex(&registry, &lines);
    assert!(!can_build(&tokens));
}
