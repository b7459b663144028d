//! Lowering: each statement becomes the instructions that a backend has to
//! carry out, and the symbol table records every variable with the value
//! of its first assignment.
//!
//! A backend declares variables, stores literals, loads variables, prints
//! and returns. Storage is named by slot numbers: the variable declared
//! first has slot 0, the next one slot 1.

use crate::ast::{
    expressions_view, type_of, DataType, DataTypeValue, Expression, ExpressionView, Statement,
    StatementView, ValueView,
};
use vstd::prelude::*;
use vstd::string::*;

verus! {

/// A variable: its name and the value that its first assignment gave it.
#[derive(Debug, PartialEq, Eq)]
pub struct Symbol {
    pub name: String,
    pub value: DataTypeValue,
}

/// The mathematical value of a [`Symbol`].
pub struct SymbolView {
    pub name: Seq<char>,
    pub value: ValueView,
}

impl View for Symbol {
    type V = SymbolView;

    open spec fn view(&self) -> SymbolView {
        SymbolView { name: self.name@, value: self.value@ }
    }
}

/// The slot of the variable with the given name, if it is declared.
pub open spec fn slot_of(symbols: Seq<SymbolView>, name: Seq<char>) -> Option<int>
    decreases symbols.len(),
{
    if symbols.len() == 0 {
        None
    } else if symbols.last().name == name {
        Some(symbols.len() - 1)
    } else {
        slot_of(symbols.drop_last(), name)
    }
}

/// No two symbols have the same name.
pub open spec fn distinct_names(symbols: Seq<SymbolView>) -> bool {
    forall|i: int, j: int|
        0 <= i < j < symbols.len() ==> (#[trigger] symbols[i]).name != (#[trigger] symbols[j]).name
}

/// The slot of a declared name holds that name, and an undeclared name is
/// the name of no symbol.
pub proof fn lemma_slot_of(symbols: Seq<SymbolView>, name: Seq<char>)
    ensures
        slot_of(symbols, name) matches Some(slot) ==> 0 <= slot < symbols.len()
            && symbols[slot].name == name,
        slot_of(symbols, name) is None ==> forall|i: int|
            0 <= i < symbols.len() ==> (#[trigger] symbols[i]).name != name,
    decreases symbols.len(),
{
    if symbols.len() > 0 && symbols.last().name != name {
        let rest = symbols.drop_last();
        lemma_slot_of(rest, name);
        if slot_of(symbols, name) is None {
            assert forall|i: int| 0 <= i < symbols.len() implies (#[trigger] symbols[i]).name
                != name by {
                if i < rest.len() {
                    assert(rest[i] == symbols[i]);
                }
            }
        }
    }
}

/// Where names are distinct, the slot of a symbol's name is its position.
pub proof fn lemma_slot_of_position(symbols: Seq<SymbolView>, at: int)
    requires
        distinct_names(symbols),
        0 <= at < symbols.len(),
    ensures
        slot_of(symbols, symbols[at].name) == Some(at),
    decreases symbols.len(),
{
    if at < symbols.len() - 1 {
        let rest = symbols.drop_last();
        assert(distinct_names(rest)) by {
            assert forall|i: int, j: int| 0 <= i < j < rest.len() implies (#[trigger] rest[i]).name
                != (#[trigger] rest[j]).name by {
                assert(rest[i] == symbols[i]);
                assert(rest[j] == symbols[j]);
            }
        }
        assert(rest[at] == symbols[at]);
        lemma_slot_of_position(rest, at);
    }
}

/// The symbol table: the declared variables in the order of their
/// declaration. A variable's slot is its position. No name occurs twice.
#[derive(Debug)]
pub struct SymbolTable {
    entries: Vec<Symbol>,
}

impl View for SymbolTable {
    type V = Seq<SymbolView>;

    closed spec fn view(&self) -> Seq<SymbolView> {
        self.entries@.map_values(|s: Symbol| s@)
    }
}

impl SymbolTable {
    /// No name occurs twice.
    #[verifier::type_invariant]
    spec fn well_formed(&self) -> bool {
        distinct_names(self@)
    }

    /// A table without variables.
    pub fn new() -> (out: SymbolTable)
        ensures
            out@ == Seq::<SymbolView>::empty(),
    {
        let out = SymbolTable { entries: Vec::new() };
        assert(out@ =~= Seq::<SymbolView>::empty());
        out
    }

    /// The number of declared variables. Their names are distinct.
    pub fn len(&self) -> (out: usize)
        ensures
            out == self@.len(),
            distinct_names(self@),
    {
        proof {
            use_type_invariant(self);
        }
        self.entries.len()
    }

    /// The slot of a variable, if it is declared.
    pub fn lookup(&self, name: &String) -> (out: Option<usize>)
        ensures
            slot_of(self@, name@) == match out {
                Some(slot) => Some(slot as int),
                None => None,
            },
            out matches Some(slot) ==> slot < self@.len(),
    {
        let ghost all = self@;
        let mut i: usize = self.entries.len();
        assert(all.take(i as int) == all);
        while i > 0
            invariant
                i <= self.entries.len(),
                all == self@,
                slot_of(all, name@) == slot_of(all.take(i as int), name@),
            decreases i,
        {
            proof {
                assert(all.take(i as int).drop_last() == all.take(i - 1));
            }
            if self.entries[i - 1].name == *name {
                return Some(i - 1);
            }
            i -= 1;
        }
        None
    }

    /// The symbol in a slot.
    pub fn get(&self, slot: usize) -> (out: &Symbol)
        requires
            slot < self@.len(),
        ensures
            out@ == self@[slot as int],
    {
        &self.entries[slot]
    }

    /// The type of the variable in a slot.
    pub fn type_at(&self, slot: usize) -> (out: DataType)
        requires
            slot < self@.len(),
        ensures
            out == type_of(self@[slot as int].value),
    {
        self.entries[slot].value.data_type()
    }

    /// Declares a variable that is not declared yet, with its first value.
    /// It gets the next free slot.
    pub fn insert(&mut self, name: String, value: DataTypeValue) -> (slot: usize)
        requires
            slot_of(old(self)@, name@) is None,
        ensures
            slot == old(self)@.len(),
            final(self)@ == old(self)@.push(SymbolView { name: name@, value: value@ }),
    {
        proof {
            use_type_invariant(&*self);
            lemma_slot_of(self@, name@);
        }
        let slot = self.entries.len();
        let ghost before = self@;
        let symbol = Symbol { name, value };
        proof {
            let after = before.push(symbol@);
            assert(self.entries@.push(symbol).map_values(|s: Symbol| s@) =~= after);
            assert forall|i: int, j: int| 0 <= i < j < after.len() implies (#[trigger] after[i]).name
                != (#[trigger] after[j]).name by {
                assert(after[i] == before[i]);
                if j < before.len() {
                    assert(after[j] == before[j]);
                }
            }
        }
        let mut entries: Vec<Symbol> = Vec::new();
        std::mem::swap(&mut entries, &mut self.entries);
        entries.push(symbol);
        *self = SymbolTable { entries };
        slot
    }
}

/// What an exit statement returns: a constant, or what a slot holds.
#[derive(Debug, Clone, Copy, PartialEq, Eq, Structural)]
pub enum ReturnValue {
    Constant(i64),
    Variable(usize),
}

/// A value to print: a literal, or what a slot of the given type holds.
#[derive(Debug, PartialEq, Eq)]
pub enum Operand {
    Literal(DataTypeValue),
    Variable { slot: usize, data_type: DataType },
}

/// The mathematical value of an [`Operand`].
pub enum OperandView {
    Literal(ValueView),
    Variable { slot: usize, data_type: DataType },
}

impl View for Operand {
    type V = OperandView;

    open spec fn view(&self) -> OperandView {
        match self {
            Operand::Literal(value) => OperandView::Literal(value@),
            Operand::Variable { slot, data_type } => OperandView::Variable {
                slot: *slot,
                data_type: *data_type,
            },
        }
    }
}

/// The views of a sequence of operands.
pub open spec fn operands_view(operands: Seq<Operand>) -> Seq<OperandView> {
    operands.map_values(|o: Operand| o@)
}

/// One step for the backend.
#[derive(Debug, PartialEq, Eq)]
#[allow(inconsistent_fields)]
pub enum Instruction {
    /// Allocate storage of the given type for a new variable.
    Declare { slot: usize, name: String, data_type: DataType },
    /// Store a literal in a slot.
    Store { slot: usize, value: DataTypeValue },
    /// Print the operands on one line, as the format says.
    Print { format: String, operands: Vec<Operand> },
    /// Leave the program with a value as its exit status.
    Return { value: ReturnValue },
}

/// The mathematical value of an [`Instruction`].
#[allow(inconsistent_fields)]
pub enum InstructionView {
    Declare { slot: usize, name: Seq<char>, data_type: DataType },
    Store { slot: usize, value: ValueView },
    Print { format: Seq<char>, operands: Seq<OperandView> },
    Return { value: ReturnValue },
}

impl View for Instruction {
    type V = InstructionView;

    open spec fn view(&self) -> InstructionView {
        match self {
            Instruction::Declare { slot, name, data_type } => InstructionView::Declare {
                slot: *slot,
                name: name@,
                data_type: *data_type,
            },
            Instruction::Store { slot, value } => InstructionView::Store {
                slot: *slot,
                value: value@,
            },
            Instruction::Print { format, operands } => InstructionView::Print {
                format: format@,
                operands: operands_view(operands@),
            },
            Instruction::Return { value } => InstructionView::Return { value: *value },
        }
    }
}

/// The views of a sequence of instructions.
pub open spec fn instructions_view(instructions: Seq<Instruction>) -> Seq<InstructionView> {
    instructions.map_values(|i: Instruction| i@)
}

/// Why a statement cannot be lowered.
#[derive(Debug, PartialEq, Eq)]
pub enum CodegenError {
    /// An exit statement names a variable that holds no integer.
    ExitValueNotInteger { variable: String },
}

/// The mathematical value of a [`CodegenError`].
pub enum CodegenErrorView {
    ExitValueNotInteger { variable: Seq<char> },
}

impl View for CodegenError {
    type V = CodegenErrorView;

    open spec fn view(&self) -> CodegenErrorView {
        match self {
            CodegenError::ExitValueNotInteger { variable } => CodegenErrorView::ExitValueNotInteger {
                variable: variable@,
            },
        }
    }
}

impl CodegenError {
    /// The message of the error, as the user reads it.
    pub fn message(&self) -> (out: String)
        ensures
            out@ == "exit value must be an integer"@,
    {
        String::from_str("exit value must be an integer")
    }
}

/// The symbol table and the instructions after a statement was lowered.
pub struct Lowered {
    pub symbols: Seq<SymbolView>,
    pub instructions: Seq<InstructionView>,
}

/// Declaring a variable. A name that is declared already keeps its slot,
/// its type and its value, and nothing is emitted. A new name gets the next
/// slot, and the backend is told to allocate it and to store the value.
pub open spec fn declare(symbols: Seq<SymbolView>, name: Seq<char>, value: ValueView) -> Lowered {
    if slot_of(symbols, name) is Some {
        Lowered { symbols, instructions: Seq::empty() }
    } else {
        Lowered {
            symbols: symbols.push(SymbolView { name, value }),
            instructions: seq![
                InstructionView::Declare {
                    slot: symbols.len() as usize,
                    name,
                    data_type: type_of(value),
                },
                InstructionView::Store { slot: symbols.len() as usize, value },
            ],
        }
    }
}

/// The operand that an expression of a print statement gives, if any: a
/// literal gives itself, a declared variable its slot and type, and a
/// variable that is not declared gives nothing.
pub open spec fn operand_for(expression: ExpressionView, symbols: Seq<SymbolView>) -> Option<
    OperandView,
> {
    match expression {
        ExpressionView::String(value) => Some(OperandView::Literal(ValueView::String { value })),
        ExpressionView::Integer(value) => Some(OperandView::Literal(ValueView::Integer { value })),
        ExpressionView::Float(value) => Some(OperandView::Literal(ValueView::Float { value })),
        ExpressionView::Ident(name) => match slot_of(symbols, name) {
            Some(slot) => Some(
                OperandView::Variable {
                    slot: slot as usize,
                    data_type: type_of(symbols[slot].value),
                },
            ),
            None => None,
        },
    }
}

/// The operands of a print statement, in the order of its expressions.
pub open spec fn print_operands(expressions: Seq<ExpressionView>, symbols: Seq<SymbolView>) -> Seq<
    OperandView,
>
    decreases expressions.len(),
{
    if expressions.len() == 0 {
        Seq::empty()
    } else {
        let rest = print_operands(expressions.drop_last(), symbols);
        match operand_for(expressions.last(), symbols) {
            Some(operand) => rest.push(operand),
            None => rest,
        }
    }
}

/// The type of what an operand prints.
pub open spec fn operand_type(operand: OperandView) -> DataType {
    match operand {
        OperandView::Literal(value) => type_of(value),
        OperandView::Variable { data_type, .. } => data_type,
    }
}

/// How a value of each type is rendered, followed by a space.
pub open spec fn directive(data_type: DataType) -> Seq<char> {
    match data_type {
        DataType::String => "%s "@,
        DataType::Integer => "%d "@,
        DataType::Float => "%f "@,
    }
}

/// The directives of the operands, one behind the other.
pub open spec fn directives(operands: Seq<OperandView>) -> Seq<char>
    decreases operands.len(),
{
    if operands.len() == 0 {
        Seq::empty()
    } else {
        directives(operands.drop_last()) + directive(operand_type(operands.last()))
    }
}

/// The format of a print instruction: a directive for each operand, then
/// the end of the line.
pub open spec fn print_format(operands: Seq<OperandView>) -> Seq<char> {
    directives(operands) + "\n"@
}

/// What lowering a statement does to the symbol table and which
/// instructions it emits, or why it fails.
///
/// An assignment declares its variable. An exit with a code returns the
/// code. An exit with a variable returns what the variable holds if that is
/// an integer, fails if it is of another type, and emits nothing if the
/// variable is not declared. A print statement prints its operands.
pub open spec fn lower(statement: StatementView, symbols: Seq<SymbolView>) -> Result<
    Lowered,
    CodegenErrorView,
> {
    match statement {
        StatementView::NoOp => Ok(Lowered { symbols, instructions: Seq::empty() }),
        StatementView::AssignString { ident, value } => Ok(
            declare(symbols, ident, ValueView::String { value }),
        ),
        StatementView::AssignInteger { ident, value } => Ok(
            declare(symbols, ident, ValueView::Integer { value }),
        ),
        StatementView::AssignFloat { ident, value } => Ok(
            declare(symbols, ident, ValueView::Float { value }),
        ),
        StatementView::ExitCode { code } => Ok(
            Lowered {
                symbols,
                instructions: seq![InstructionView::Return { value: ReturnValue::Constant(code) }],
            },
        ),
        StatementView::ExitVar { variable } => match slot_of(symbols, variable) {
            None => Ok(Lowered { symbols, instructions: Seq::empty() }),
            Some(slot) => if type_of(symbols[slot].value) == DataType::Integer {
                Ok(
                    Lowered {
                        symbols,
                        instructions: seq![
                            InstructionView::Return {
                                value: ReturnValue::Variable(slot as usize),
                            },
                        ],
                    },
                )
            } else {
                Err(CodegenErrorView::ExitValueNotInteger { variable })
            },
        },
        StatementView::Say { expressions } => Ok(
            Lowered {
                symbols,
                instructions: seq![
                    InstructionView::Print {
                        format: print_format(print_operands(expressions, symbols)),
                        operands: print_operands(expressions, symbols),
                    },
                ],
            },
        ),
    }
}

/// Declares a variable in the table and returns what the backend has to do
/// for it.
fn declare_variable(symbols: &mut SymbolTable, name: &String, value: DataTypeValue) -> (out: Vec<
    Instruction,
>)
    ensures
        declare(old(symbols)@, name@, value@) == (Lowered {
            symbols: final(symbols)@,
            instructions: instructions_view(out@),
        }),
{
    let mut out: Vec<Instruction> = Vec::new();
    match symbols.lookup(name) {
        Some(_) => {
            assert(instructions_view(out@) =~= Seq::empty());
        },
        None => {
            let data_type = value.data_type();
            let stored = value.copy();
            let slot = symbols.insert(name.clone(), value);
            out.push(Instruction::Declare { slot, name: name.clone(), data_type });
            out.push(Instruction::Store { slot, value: stored });
            assert(instructions_view(out@) =~= seq![
                InstructionView::Declare { slot, name: name@, data_type },
                InstructionView::Store { slot, value: stored@ },
            ]);
        },
    }
    out
}

/// The print instruction for the expressions of a print statement.
fn print_instruction(expressions: &Vec<Expression>, symbols: &SymbolTable) -> (out: Instruction)
    ensures
        out@ == (InstructionView::Print {
            format: print_format(print_operands(expressions_view(expressions@), symbols@)),
            operands: print_operands(expressions_view(expressions@), symbols@),
        }),
{
    let ghost all = expressions_view(expressions@);
    let mut operands: Vec<Operand> = Vec::new();
    let mut format = String::new();
    let mut i: usize = 0;
    assert(operands_view(operands@) =~= Seq::empty());
    while i < expressions.len()
        invariant
            i <= expressions.len(),
            all == expressions_view(expressions@),
            operands_view(operands@) == print_operands(all.take(i as int), symbols@),
            format@ == directives(operands_view(operands@)),
        decreases expressions.len() - i,
    {
        proof {
            assert(all.take(i + 1).drop_last() == all.take(i as int));
            assert(all.take(i + 1).last() == expressions@[i as int]@);
        }
        let found: Option<Operand> = match &expressions[i] {
            Expression::String(value) => Some(
                Operand::Literal(DataTypeValue::String { value: value.clone() }),
            ),
            Expression::Integer(value) => Some(
                Operand::Literal(DataTypeValue::Integer { value: *value }),
            ),
            Expression::Float(value) => Some(
                Operand::Literal(DataTypeValue::Float { value: value.copy() }),
            ),
            Expression::Ident(name) => match symbols.lookup(name) {
                Some(slot) => Some(Operand::Variable { slot, data_type: symbols.type_at(slot) }),
                None => None,
            },
        };
        match found {
            Some(operand) => {
                let ghost before = operands_view(operands@);
                let data_type = match &operand {
                    Operand::Literal(value) => value.data_type(),
                    Operand::Variable { data_type, .. } => *data_type,
                };
                match data_type {
                    DataType::String => format.append("%s "),
                    DataType::Integer => format.append("%d "),
                    DataType::Float => format.append("%f "),
                }
                operands.push(operand);
                proof {
                    assert(operands_view(operands@) =~= before.push(operand@));
                    assert(operands_view(operands@).drop_last() =~= before);
                }
            },
            None => {},
        }
        i += 1;
    }
    proof {
        assert(all.take(expressions.len() as int) == all);
    }
    format.append("\n");
    Instruction::Print { format, operands }
}

/// The mathematical value of what lowering returns, with the symbol table
/// it leaves.
pub open spec fn lowered_view(
    out: Result<Vec<Instruction>, CodegenError>,
    symbols: Seq<SymbolView>,
) -> Result<Lowered, CodegenErrorView> {
    match out {
        Ok(instructions) => Ok(Lowered { symbols, instructions: instructions_view(instructions@) }),
        Err(error) => Err(error@),
    }
}

impl Statement {
    /// Lowers the statement: records a new variable in the symbol table and
    /// returns the instructions for the backend, or the reason why there
    /// are none. A failure leaves the symbol table as it was.
    pub fn gen_code(&self, symbols: &mut SymbolTable) -> (out: Result<
        Vec<Instruction>,
        CodegenError,
    >)
        ensures
            lowered_view(out, final(symbols)@) == lower(self@, old(symbols)@),
            out is Err ==> final(symbols)@ == old(symbols)@,
    {
        match self {
            Statement::AssignInteger { ident, value } => Ok(
                declare_variable(symbols, ident, DataTypeValue::Integer { value: *value }),
            ),
            Statement::AssignString { ident, value } => Ok(
                declare_variable(symbols, ident, DataTypeValue::String { value: value.clone() }),
            ),
            Statement::AssignFloat { ident, value } => Ok(
                declare_variable(symbols, ident, DataTypeValue::Float { value: value.copy() }),
            ),
            Statement::ExitCode { code } => {
                let mut out: Vec<Instruction> = Vec::new();
                out.push(Instruction::Return { value: ReturnValue::Constant(*code) });
                assert(instructions_view(out@) =~= seq![
                    InstructionView::Return { value: ReturnValue::Constant(*code) },
                ]);
                Ok(out)
            },
            Statement::ExitVar { variable } => {
                let mut out: Vec<Instruction> = Vec::new();
                match symbols.lookup(variable) {
                    None => {
                        assert(instructions_view(out@) =~= Seq::empty());
                    },
                    Some(slot) => {
                        match symbols.type_at(slot) {
                            DataType::Integer => {},
                            _ => {
                                return Err(
                                    CodegenError::ExitValueNotInteger { variable: variable.clone() },
                                );
                            },
                        }
                        out.push(Instruction::Return { value: ReturnValue::Variable(slot) });
                        assert(instructions_view(out@) =~= seq![
                            InstructionView::Return { value: ReturnValue::Variable(slot) },
                        ]);
                    },
                }
                Ok(out)
            },
            Statement::Say { expressions } => {
                let mut out: Vec<Instruction> = Vec::new();
                let print = print_instruction(expressions, symbols);
                out.push(print);
                assert(instructions_view(out@) =~= seq![print@]);
                Ok(out)
            },
            Statement::NoOp {  } => {
                let out: Vec<Instruction> = Vec::new();
                assert(instructions_view(out@) =~= Seq::empty());
                Ok(out)
            },
        }
    }
}

/// One table continues another: it holds the same symbols in the same
/// slots, and maybe more behind them.
pub open spec fn extends(after: Seq<SymbolView>, before: Seq<SymbolView>) -> bool {
    &&& before.len() <= after.len()
    &&& after.take(before.len() as int) == before
}

/// Declaring a name that is declared already changes nothing and emits
/// nothing, whatever value and type the new assignment has.
pub proof fn lemma_declare_is_idempotent(
    symbols: Seq<SymbolView>,
    name: Seq<char>,
    first: ValueView,
    second: ValueView,
)
    ensures
        declare(declare(symbols, name, first).symbols, name, second) == (Lowered {
            symbols: declare(symbols, name, first).symbols,
            instructions: Seq::empty(),
        }),
{
    let after = declare(symbols, name, first).symbols;
    if slot_of(symbols, name) is None {
        assert(after.last().name == name);
    }
}

/// Declaring keeps every symbol that the table holds, and keeps the names
/// distinct.
pub proof fn lemma_declare_extends(symbols: Seq<SymbolView>, name: Seq<char>, value: ValueView)
    requires
        distinct_names(symbols),
    ensures
        extends(declare(symbols, name, value).symbols, symbols),
        distinct_names(declare(symbols, name, value).symbols),
        slot_of(declare(symbols, name, value).symbols, name) is Some,
{
    let after = declare(symbols, name, value).symbols;
    if slot_of(symbols, name) is None {
        lemma_slot_of(symbols, name);
        assert(after.take(symbols.len() as int) =~= symbols);
        assert forall|i: int, j: int| 0 <= i < j < after.len() implies (#[trigger] after[i]).name
            != (#[trigger] after[j]).name by {
            assert(after[i] == symbols[i]);
            if j < symbols.len() {
                assert(after[j] == symbols[j]);
            }
        }
        assert(after.last().name == name);
    } else {
        assert(after.take(symbols.len() as int) =~= symbols);
    }
}

/// Lowering a statement keeps every symbol that the table holds: a
/// variable, once declared, keeps its slot, its type and its value.
pub proof fn lemma_lower_extends(statement: StatementView, symbols: Seq<SymbolView>)
    requires
        distinct_names(symbols),
    ensures
        lower(statement, symbols) matches Ok(step) ==> extends(step.symbols, symbols)
            && distinct_names(step.symbols),
{
    match statement {
        StatementView::AssignString { ident, value } => {
            lemma_declare_extends(symbols, ident, ValueView::String { value });
        },
        StatementView::AssignInteger { ident, value } => {
            lemma_declare_extends(symbols, ident, ValueView::Integer { value });
        },
        StatementView::AssignFloat { ident, value } => {
            lemma_declare_extends(symbols, ident, ValueView::Float { value });
        },
        _ => {
            assert(symbols.take(symbols.len() as int) =~= symbols);
        },
    }
}

/// In a table that continues another, every name of the other has the slot
/// and the value it had.
pub proof fn lemma_extends_keeps_slot(
    after: Seq<SymbolView>,
    before: Seq<SymbolView>,
    name: Seq<char>,
)
    requires
        extends(after, before),
        distinct_names(after),
        slot_of(before, name) is Some,
    ensures
        slot_of(after, name) == slot_of(before, name),
        after[slot_of(before, name)->0] == before[slot_of(before, name)->0],
{
    lemma_slot_of(before, name);
    let slot = slot_of(before, name)->0;
    assert(after[slot] == after.take(before.len() as int)[slot]);
    lemma_slot_of_position(after, slot);
}

/// Continuing is transitive.
pub proof fn lemma_extends_transitive(
    third: Seq<SymbolView>,
    second: Seq<SymbolView>,
    first: Seq<SymbolView>,
)
    requires
        extends(third, second),
        extends(second, first),
    ensures
        extends(third, first),
{
    assert(third.take(first.len() as int) =~= third.take(second.len() as int).take(
        first.len() as int,
    ));
}

/// An exit with a variable returns what the variable's slot holds if the
/// variable is an integer, and fails if it is of another type.
pub proof fn lemma_exit_needs_integer(symbols: Seq<SymbolView>, variable: Seq<char>)
    requires
        slot_of(symbols, variable) is Some,
    ensures
        ({
            let slot = slot_of(symbols, variable)->0;
            let lowered = lower(StatementView::ExitVar { variable }, symbols);
            if type_of(symbols[slot].value) == DataType::Integer {
                lowered == Ok::<Lowered, CodegenErrorView>(
                    Lowered {
                        symbols,
                        instructions: seq![
                            InstructionView::Return {
                                value: ReturnValue::Variable(slot as usize),
                            },
                        ],
                    },
                )
            } else {
                lowered == Err::<Lowered, CodegenErrorView>(
                    CodegenErrorView::ExitValueNotInteger { variable },
                )
            }
        }),
{
}

} // verus!
