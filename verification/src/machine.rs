//! What the instructions of a program mean: a backend that carries them out
//! in order stores literals in slots and, at the first return, leaves the
//! program with a value as its exit status. This module states that meaning
//! and proves what the lowered program of a source returns.

use crate::ast::{StatementView, ValueView};
use crate::builder::{
    lemma_first_assignment_wins, lemma_lower_all_stops, lower_all, program_of, DEFAULT_EXIT_CODE,
};
use crate::codegen::{
    declare, lemma_slot_of, lower, slot_of, InstructionView, ReturnValue, SymbolView,
};
use vstd::prelude::*;

verus! {

/// The value with which a program leaves, if it is run from the given
/// contents of the slots: the value of the first return. A program that
/// reaches its end, or that returns a slot which holds no integer, leaves
/// with none.
pub open spec fn exit_status(
    instructions: Seq<InstructionView>,
    slots: Map<usize, ValueView>,
) -> Option<i64>
    decreases instructions.len(),
{
    if instructions.len() == 0 {
        None
    } else {
        let rest = instructions.drop_first();
        match instructions.first() {
            InstructionView::Store { slot, value } => exit_status(rest, slots.insert(slot, value)),
            InstructionView::Return { value: ReturnValue::Constant(code) } => Some(code),
            InstructionView::Return { value: ReturnValue::Variable(slot) } => if slots.dom().contains(
                slot,
            ) {
                match slots[slot] {
                    ValueView::Integer { value } => Some(value),
                    _ => None,
                }
            } else {
                None
            },
            _ => exit_status(rest, slots),
        }
    }
}

/// The contents of the slots after instructions that do not return.
pub open spec fn stored(instructions: Seq<InstructionView>, slots: Map<usize, ValueView>) -> Map<
    usize,
    ValueView,
>
    decreases instructions.len(),
{
    if instructions.len() == 0 {
        slots
    } else {
        match instructions.first() {
            InstructionView::Store { slot, value } => stored(
                instructions.drop_first(),
                slots.insert(slot, value),
            ),
            _ => stored(instructions.drop_first(), slots),
        }
    }
}

/// None of the instructions is a return.
pub open spec fn returns_nowhere(instructions: Seq<InstructionView>) -> bool {
    forall|i: int| 0 <= i < instructions.len() ==> !((#[trigger] instructions[i]) is Return)
}

/// The statement is no exit statement.
pub open spec fn stays(statement: StatementView) -> bool {
    !(statement is ExitCode) && !(statement is ExitVar)
}

/// None of the statements is an exit statement.
pub open spec fn all_stay(statements: Seq<StatementView>) -> bool {
    forall|i: int| 0 <= i < statements.len() ==> stays(#[trigger] statements[i])
}

/// Every variable of the table has its value in its slot.
pub open spec fn holds_values(slots: Map<usize, ValueView>, symbols: Seq<SymbolView>) -> bool {
    forall|i: int|
        0 <= i < symbols.len() ==> slots.dom().contains(i as usize) && slots[i as usize] == (
        #[trigger] symbols[i]).value
}

/// Instructions that do not return hand the slots on to what follows them.
pub proof fn lemma_run_through(
    first: Seq<InstructionView>,
    second: Seq<InstructionView>,
    slots: Map<usize, ValueView>,
)
    requires
        returns_nowhere(first),
    ensures
        exit_status(first + second, slots) == exit_status(second, stored(first, slots)),
    decreases first.len(),
{
    if first.len() == 0 {
        assert(first + second =~= second);
    } else {
        let rest = first.drop_first();
        assert((first + second).drop_first() =~= rest + second);
        assert((first + second).first() == first[0]);
        assert forall|i: int| 0 <= i < rest.len() implies !((#[trigger] rest[i]) is Return) by {
            assert(rest[i] == first[i + 1]);
        }
        match first.first() {
            InstructionView::Store { slot, value } => {
                lemma_run_through(rest, second, slots.insert(slot, value));
            },
            _ => {
                lemma_run_through(rest, second, slots);
            },
        }
    }
}

/// Storing goes on where it stopped.
pub proof fn lemma_stored_through(
    first: Seq<InstructionView>,
    second: Seq<InstructionView>,
    slots: Map<usize, ValueView>,
)
    ensures
        stored(first + second, slots) == stored(second, stored(first, slots)),
    decreases first.len(),
{
    if first.len() == 0 {
        assert(first + second =~= second);
    } else {
        let rest = first.drop_first();
        assert((first + second).drop_first() =~= rest + second);
        assert((first + second).first() == first[0]);
        match first.first() {
            InstructionView::Store { slot, value } => {
                lemma_stored_through(rest, second, slots.insert(slot, value));
            },
            _ => {
                lemma_stored_through(rest, second, slots);
            },
        }
    }
}

/// Lowering a statement that is no exit statement emits no return, and
/// leaves every variable of the table with its value in its slot.
pub proof fn lemma_lower_stores(
    statement: StatementView,
    symbols: Seq<SymbolView>,
    slots: Map<usize, ValueView>,
)
    requires
        stays(statement),
        holds_values(slots, symbols),
        symbols.len() < usize::MAX,
    ensures
        lower(statement, symbols) matches Ok(step) && returns_nowhere(step.instructions)
            && holds_values(stored(step.instructions, slots), step.symbols),
{
    let step = lower(statement, symbols)->Ok_0;
    match statement {
        StatementView::AssignString { ident, value } => {
            lemma_declare_stores(symbols, ident, ValueView::String { value }, slots);
        },
        StatementView::AssignInteger { ident, value } => {
            lemma_declare_stores(symbols, ident, ValueView::Integer { value }, slots);
        },
        StatementView::AssignFloat { ident, value } => {
            lemma_declare_stores(symbols, ident, ValueView::Float { value }, slots);
        },
        StatementView::Say { expressions } => {
            reveal_with_fuel(stored, 2);
            assert(step.instructions.drop_first() =~= Seq::<InstructionView>::empty());
        },
        _ => {},
    }
}

/// Declaring a variable emits no return, and leaves every variable of the
/// table with its value in its slot.
pub proof fn lemma_declare_stores(
    symbols: Seq<SymbolView>,
    name: Seq<char>,
    value: ValueView,
    slots: Map<usize, ValueView>,
)
    requires
        holds_values(slots, symbols),
        symbols.len() < usize::MAX,
    ensures
        returns_nowhere(declare(symbols, name, value).instructions),
        holds_values(
            stored(declare(symbols, name, value).instructions, slots),
            declare(symbols, name, value).symbols,
        ),
{
    let step = declare(symbols, name, value);
    if slot_of(symbols, name) is None {
        reveal_with_fuel(stored, 3);
        let slot = symbols.len() as usize;
        assert(step.instructions.drop_first() =~= seq![InstructionView::Store { slot, value }]);
        assert(step.instructions.drop_first().drop_first() =~= Seq::<InstructionView>::empty());
        let after = stored(step.instructions, slots);
        assert(after == slots.insert(slot, value));
        assert forall|i: int| 0 <= i < step.symbols.len() implies after.dom().contains(i as usize)
            && after[i as usize] == (#[trigger] step.symbols[i]).value by {
            if i < symbols.len() {
                assert(step.symbols[i] == symbols[i]);
            }
        }
    }
}

/// Lowering statements of which none is an exit statement emits no return,
/// never fails, and leaves every variable of the table with its value in
/// its slot.
pub proof fn lemma_lower_all_stores(
    statements: Seq<StatementView>,
    symbols: Seq<SymbolView>,
    slots: Map<usize, ValueView>,
)
    requires
        all_stay(statements),
        holds_values(slots, symbols),
        symbols.len() + statements.len() <= usize::MAX,
    ensures
        lower_all(statements, symbols).error is None,
        returns_nowhere(lower_all(statements, symbols).instructions),
        holds_values(
            stored(lower_all(statements, symbols).instructions, slots),
            lower_all(statements, symbols).symbols,
        ),
        lower_all(statements, symbols).symbols.len() <= symbols.len() + statements.len(),
    decreases statements.len(),
{
    if statements.len() > 0 {
        let rest = statements.drop_last();
        assert forall|i: int| 0 <= i < rest.len() implies stays(#[trigger] rest[i]) by {
            assert(rest[i] == statements[i]);
        }
        lemma_lower_all_stores(rest, symbols, slots);
        let before = lower_all(rest, symbols);
        let between = stored(before.instructions, slots);
        assert(stays(statements[statements.len() - 1]));
        lemma_lower_stores(statements.last(), before.symbols, between);
        let step = lower(statements.last(), before.symbols)->Ok_0;
        lemma_stored_through(before.instructions, step.instructions, slots);
        let all = before.instructions + step.instructions;
        assert forall|i: int| 0 <= i < all.len() implies !((#[trigger] all[i]) is Return) by {
            if i < before.instructions.len() {
                assert(all[i] == before.instructions[i]);
            } else {
                assert(all[i] == step.instructions[i - before.instructions.len()]);
            }
        }
    }
}

/// Lowering goes line by line: the statements behind a list that lowers
/// without error are lowered against the table that the list left.
pub proof fn lemma_lower_all_append(
    first: Seq<StatementView>,
    second: Seq<StatementView>,
    symbols: Seq<SymbolView>,
)
    requires
        lower_all(first, symbols).error is None,
    ensures
        lower_all(first + second, symbols).instructions == lower_all(first, symbols).instructions
            + lower_all(second, lower_all(first, symbols).symbols).instructions,
        lower_all(first + second, symbols).error == lower_all(
            second,
            lower_all(first, symbols).symbols,
        ).error,
        lower_all(first + second, symbols).symbols == lower_all(
            second,
            lower_all(first, symbols).symbols,
        ).symbols,
    decreases second.len(),
{
    let middle = lower_all(first, symbols);
    if second.len() == 0 {
        assert(first + second =~= first);
        assert(middle.instructions + Seq::<InstructionView>::empty() =~= middle.instructions);
    } else {
        let rest = second.drop_last();
        assert((first + second).drop_last() =~= first + rest);
        assert((first + second).last() == second.last());
        lemma_lower_all_append(first, rest, symbols);
        let before = lower_all(rest, middle.symbols);
        if before.error is None {
            match lower(second.last(), before.symbols) {
                Ok(step) => {
                    assert((middle.instructions + before.instructions) + step.instructions
                        =~= middle.instructions + (before.instructions + step.instructions));
                },
                Err(_) => {},
            }
        }
    }
}

/// A program without exit statements leaves with the default exit status.
pub proof fn lemma_program_returns_default(statements: Seq<StatementView>)
    requires
        all_stay(statements),
        statements.len() <= usize::MAX,
    ensures
        lower_all(statements, Seq::empty()).error is None,
        exit_status(
            program_of(lower_all(statements, Seq::empty()).instructions),
            Map::empty(),
        ) == Some(DEFAULT_EXIT_CODE),
{
    let slots = Map::<usize, ValueView>::empty();
    lemma_lower_all_stores(statements, Seq::empty(), slots);
    let body = lower_all(statements, Seq::empty()).instructions;
    let last = seq![InstructionView::Return { value: ReturnValue::Constant(DEFAULT_EXIT_CODE) }];
    assert(program_of(body) =~= body + last);
    lemma_run_through(body, last, slots);
}

/// A program whose first exit statement gives a code leaves with that code.
pub proof fn lemma_program_returns_code(
    before: Seq<StatementView>,
    code: i64,
    later: Seq<StatementView>,
)
    requires
        all_stay(before),
        before.len() <= usize::MAX,
        lower_all(before.push(StatementView::ExitCode { code }) + later, Seq::empty()).error
            is None,
    ensures
        exit_status(
            program_of(
                lower_all(
                    before.push(StatementView::ExitCode { code }) + later,
                    Seq::empty(),
                ).instructions,
            ),
            Map::empty(),
        ) == Some(code),
{
    let slots = Map::<usize, ValueView>::empty();
    let exit = StatementView::ExitCode { code };
    lemma_lower_all_stores(before, Seq::empty(), slots);
    let head = lower_all(before, Seq::empty());
    let statements = before.push(exit) + later;
    assert(statements =~= before + (seq![exit] + later));
    lemma_lower_all_append(before, seq![exit] + later, Seq::empty());
    let tail = lower_all(seq![exit] + later, head.symbols);
    lemma_exit_leads(exit, later, head.symbols);
    let ret = InstructionView::Return { value: ReturnValue::Constant(code) };
    let program = program_of(lower_all(statements, Seq::empty()).instructions);
    let rest = program_of(tail.instructions);
    assert(program =~= head.instructions + rest);
    lemma_run_through(head.instructions, rest, slots);
    assert(rest.first() == ret);
}

/// A program whose first exit statement names a variable that holds an
/// integer leaves with that integer: the value that the first assignment
/// gave to the variable.
pub proof fn lemma_program_returns_variable(
    before: Seq<StatementView>,
    variable: Seq<char>,
    value: i64,
    later: Seq<StatementView>,
)
    requires
        all_stay(before),
        before.len() <= usize::MAX,
        slot_of(lower_all(before, Seq::empty()).symbols, variable) matches Some(slot) && lower_all(
            before,
            Seq::empty(),
        ).symbols[slot].value == (ValueView::Integer { value }),
        lower_all(before.push(StatementView::ExitVar { variable }) + later, Seq::empty()).error
            is None,
    ensures
        exit_status(
            program_of(
                lower_all(
                    before.push(StatementView::ExitVar { variable }) + later,
                    Seq::empty(),
                ).instructions,
            ),
            Map::empty(),
        ) == Some(value),
{
    let slots = Map::<usize, ValueView>::empty();
    let exit = StatementView::ExitVar { variable };
    lemma_lower_all_stores(before, Seq::empty(), slots);
    let head = lower_all(before, Seq::empty());
    let slot = slot_of(head.symbols, variable)->0;
    lemma_slot_of(head.symbols, variable);
    let statements = before.push(exit) + later;
    assert(statements =~= before + (seq![exit] + later));
    lemma_lower_all_append(before, seq![exit] + later, Seq::empty());
    let tail = lower_all(seq![exit] + later, head.symbols);
    lemma_exit_leads(exit, later, head.symbols);
    let ret = InstructionView::Return { value: ReturnValue::Variable(slot as usize) };
    let program = program_of(lower_all(statements, Seq::empty()).instructions);
    let rest = program_of(tail.instructions);
    assert(program =~= head.instructions + rest);
    lemma_run_through(head.instructions, rest, slots);
    assert(rest.first() == ret);
    assert(head.symbols[slot].value == (ValueView::Integer { value }));
}

/// The instructions of a list of statements start with those of its first
/// statement.
pub proof fn lemma_exit_leads(
    first: StatementView,
    later: Seq<StatementView>,
    symbols: Seq<SymbolView>,
)
    requires
        lower_all(seq![first] + later, symbols).error is None,
    ensures
        lower(first, symbols) matches Ok(step) && lower_all(seq![first] + later, symbols).instructions
            == step.instructions + lower_all(later, step.symbols).instructions,
{
    let one = seq![first];
    reveal_with_fuel(lower_all, 2);
    assert(one.drop_last() =~= Seq::<StatementView>::empty());
    assert(one.last() == first);
    let single = lower_all(one, symbols);
    if lower(first, symbols) is Err {
        assert(single.error is Some);
        assert((one + later).take(1) =~= one);
        lemma_lower_all_stops(one + later, symbols, 1);
    } else {
        let step = lower(first, symbols)->Ok_0;
        assert(single.instructions =~= step.instructions);
        lemma_lower_all_append(one, later, symbols);
    }
}

/// A program that assigns an integer to a new variable and later exits
/// with that variable leaves with the integer of that first assignment,
/// whatever is assigned to the variable in between.
pub proof fn lemma_first_assignment_is_returned(
    name: Seq<char>,
    value: i64,
    between: Seq<StatementView>,
    later: Seq<StatementView>,
)
    requires
        all_stay(between),
        between.len() < usize::MAX,
        lower_all(
            (seq![StatementView::AssignInteger { ident: name, value }] + between).push(
                StatementView::ExitVar { variable: name },
            ) + later,
            Seq::empty(),
        ).error is None,
    ensures
        exit_status(
            program_of(
                lower_all(
                    (seq![StatementView::AssignInteger { ident: name, value }] + between).push(
                        StatementView::ExitVar { variable: name },
                    ) + later,
                    Seq::empty(),
                ).instructions,
            ),
            Map::empty(),
        ) == Some(value),
{
    let assign = StatementView::AssignInteger { ident: name, value };
    let one = seq![assign];
    let before = one + between;
    let empty = Seq::<SymbolView>::empty();
    reveal_with_fuel(lower_all, 2);
    assert(one.drop_last() =~= Seq::<StatementView>::empty());
    assert(one.last() == assign);
    let first = ValueView::Integer { value };
    assert(lower_all(one, empty).symbols == declare(empty, name, first).symbols);
    lemma_lower_all_append(one, between, empty);
    lemma_first_assignment_wins(empty, name, first, between);
    assert forall|i: int| 0 <= i < before.len() implies stays(#[trigger] before[i]) by {
        if i > 0 {
            assert(before[i] == between[i - 1]);
        }
    }
    lemma_program_returns_variable(before, name, value, later);
}

} // verus!
