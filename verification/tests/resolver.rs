use brainfuck_interpreter::BrainfuckInstructions::{
    BeginLoop, DecreaseValue, EndLoop, IncreasePointer, IncreaseValue, PrintCell,
};
use brainfuck_interpreter::{
    chars_to_instructions, resolve, BrainfuckInstructions, BrainfuckProgram, UnbalancedLoopError,
};

fn from_text(text: &str) -> Vec<BrainfuckInstructions> {
    let chars: Vec<char> = text.chars().collect();
    chars_to_instructions(&chars)
}

#[test]
fn resolve_accepts_the_empty_sequence() {
    let table = resolve(&[]).unwrap();
    assert_eq!(table.get(0), None);
}

#[test]
fn resolve_maps_only_loop_boundaries() {
    let instructions = vec![IncreaseValue, BeginLoop, DecreaseValue, EndLoop, PrintCell];
    let table = resolve(&instructions).unwrap();
    assert_eq!(table.get(0), None);
    assert_eq!(table.get(1), Some(3));
    assert_eq!(table.get(2), None);
    assert_eq!(table.get(3), Some(1));
    assert_eq!(table.get(4), None);
    assert_eq!(table.get(5), None);
}

#[test]
fn resolve_pairs_three_nested_loops() {
    // [ + [ > + [ ] ] ]
    let instructions = vec![
        BeginLoop,
        IncreaseValue,
        BeginLoop,
        IncreasePointer,
        IncreaseValue,
        BeginLoop,
        EndLoop,
        EndLoop,
        EndLoop,
    ];
    let table = resolve(&instructions).unwrap();
    // the middle pair
    assert_eq!(table.get(2), Some(7));
    assert_eq!(table.get(7), Some(2));
    // the innermost pair
    assert_eq!(table.get(5), Some(6));
    assert_eq!(table.get(6), Some(5));
    // the outer pair
    assert_eq!(table.get(0), Some(8));
    assert_eq!(table.get(8), Some(0));
}

#[test]
fn resolve_pairs_loops_side_by_side() {
    let instructions = from_text("[][[]]");
    let table = resolve(&instructions).unwrap();
    let partners: Vec<Option<usize>> = (0..6).map(|i| table.get(i)).collect();
    assert_eq!(partners, vec![Some(1), Some(0), Some(5), Some(4), Some(3), Some(2)]);
}

#[test]
fn resolve_opens_before_closes_and_is_its_own_inverse() {
    let instructions = from_text("+[>[-]<[->+<]]>[[.]]");
    let table = resolve(&instructions).unwrap();
    for (i, instruction) in instructions.iter().enumerate() {
        match instruction {
            BeginLoop => {
                let close = table.get(i).unwrap();
                assert!(close > i);
                assert_eq!(instructions[close], EndLoop);
                assert_eq!(table.get(close), Some(i));
            }
            EndLoop => {
                let open = table.get(i).unwrap();
                assert!(open < i);
                assert_eq!(instructions[open], BeginLoop);
                assert_eq!(table.get(open), Some(i));
            }
            _ => assert_eq!(table.get(i), None),
        }
    }
}

#[test]
fn resolve_reports_the_first_unmatched_close() {
    // [ ] ] + ]
    let instructions = vec![BeginLoop, EndLoop, EndLoop, IncreaseValue, EndLoop];
    assert_eq!(resolve(&instructions), Err(UnbalancedLoopError::UnmatchedClose(2)));
}

#[test]
fn resolve_reports_a_leading_close() {
    let instructions = vec![EndLoop, BeginLoop];
    assert_eq!(resolve(&instructions), Err(UnbalancedLoopError::UnmatchedClose(0)));
}

#[test]
fn resolve_reports_a_close_before_unclosed_opens() {
    // the unmatched close wins over the loops that stay open
    let instructions = from_text("[[]]][[");
    assert_eq!(resolve(&instructions), Err(UnbalancedLoopError::UnmatchedClose(4)));
}

#[test]
fn resolve_reports_every_unclosed_open() {
    // [ + [ [ ] [
    let instructions = vec![BeginLoop, IncreaseValue, BeginLoop, BeginLoop, EndLoop, BeginLoop];
    assert_eq!(resolve(&instructions), Err(UnbalancedLoopError::UnmatchedOpen(vec![0, 2, 5])));
}

#[test]
fn resolve_reports_a_single_unclosed_open() {
    let instructions = vec![BeginLoop];
    assert_eq!(resolve(&instructions), Err(UnbalancedLoopError::UnmatchedOpen(vec![0])));
}

#[test]
fn resolve_twice_gives_the_same_table() {
    let instructions = from_text("++[>+[>+<-]<-]>>[-]");
    let first = resolve(&instructions);
    let second = resolve(&instructions);
    assert!(first.is_ok());
    assert_eq!(first, second);

    let unbalanced = from_text("[[+]");
    assert_eq!(resolve(&unbalanced), resolve(&unbalanced));
}

#[test]
fn validate_agrees_with_resolve() {
    let balanced = BrainfuckProgram::new(from_text("[[]]"));
    assert_eq!(balanced.validate(), Ok(()));

    let close = BrainfuckProgram::new(from_text("+]"));
    assert_eq!(close.validate(), Err(UnbalancedLoopError::UnmatchedClose(1)));

    let open = BrainfuckProgram::new(from_text("[+[-]"));
    assert_eq!(open.validate(), Err(UnbalancedLoopError::UnmatchedOpen(vec![0])));
}

#[test]
fn find_loop_ends_need_a_loop_boundary_and_balance() {
    let mut program = BrainfuckProgram::new(from_text("+[-]"));
    assert_eq!(program.find_end_loop(), None);
    assert_eq!(program.find_begin_loop(), None);
    assert!(program.set_program_counter(1));
    assert_eq!(program.find_end_loop(), Some(3));
    assert_eq!(program.find_begin_loop(), None);
    assert!(program.set_program_counter(3));
    assert_eq!(program.find_end_loop(), None);
    assert_eq!(program.find_begin_loop(), Some(1));
    assert!(program.set_program_counter(4));
    assert_eq!(program.find_end_loop(), None);
    assert_eq!(program.find_begin_loop(), None);

    let unbalanced = BrainfuckProgram::new(from_text("[[]"));
    assert_eq!(unbalanced.find_end_loop(), None);
}

#[test]
fn text_is_read_character_by_character() {
    let instructions = from_text("><+-[],.");
    assert_eq!(
        instructions,
        vec![
            BrainfuckInstructions::IncreasePointer,
            BrainfuckInstructions::DecreasePointer,
            BrainfuckInstructions::IncreaseValue,
            BrainfuckInstructions::DecreaseValue,
            BrainfuckInstructions::BeginLoop,
            BrainfuckInstructions::EndLoop,
            BrainfuckInstructions::WriteToCell,
            BrainfuckInstructions::PrintCell,
        ]
    );
}

#[test]
fn other_characters_are_dropped() {
    assert_eq!(from_text(""), vec![]);
    assert_eq!(from_text("hello, world\n"), vec![BrainfuckInstructions::WriteToCell]);
    assert_eq!(
        from_text("a + b\t-\u{1f600} c"),
        vec![BrainfuckInstructions::IncreaseValue, BrainfuckInstructions::DecreaseValue]
    );
}

#[test]
fn characters_and_instructions_correspond() {
    for c in ['>', '<', '+', '-', '[', ']', ',', '.'] {
        let instruction = BrainfuckInstructions::from_char(c).unwrap();
        assert_eq!(instruction.to_char(), c);
    }
    assert_eq!(BrainfuckInstructions::from_char('x'), None);
    assert_eq!(BrainfuckInstructions::from_char(' '), None);
    assert_eq!(BrainfuckInstructions::from_char('['), Some(BeginLoop));
}
